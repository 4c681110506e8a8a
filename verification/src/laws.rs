//! What holds of the policy as a whole.
use crate::binary64::{Binary64, NOT_A_NUMBER, SIGN};
use crate::config::{
    named_file, trimmed, white_space, KvCentricConfig, KvCentricOverrides, OverrideFile,
};
use crate::cost::{excess, TtftEstimate};
use crate::order::{
    lemma_larger_monotone, lemma_natural_positive, lemma_natural_zero, lemma_numbers_only,
    lemma_of_natural, lemma_product_monotone, lemma_product_not_negative, lemma_sum_monotone,
    lemma_sum_not_negative, lemma_sum_with_zero, lemma_zero_factor,
};
use crate::overlap::{first_entry, healthy_urls, CacheModel, ModelIndex};
use crate::policy::{
    countable, has_room, healthy_loads, is_cheapest, is_least_loaded, with_reservation,
    KvCentricPolicy, SelectWorkerInfo,
};
use crate::workers::{
    healthy_indices, lemma_healthy_indices, reserved, WorkerState, WorkerType,
};
use vstd::prelude::*;

verus! {

// ---- Overrides ----

/// Overrides that hold nothing change nothing.
pub proof fn law_no_overrides(config: KvCentricConfig)
    ensures
        config.overridden(KvCentricOverrides::none()) == config,
{
}

/// Applying the same overrides again changes nothing more.
pub proof fn law_overrides_idempotent(config: KvCentricConfig, o: KvCentricOverrides)
    ensures
        config.overridden(o).overridden(o) == config.overridden(o),
{
}

/// Two overrides one after the other are one: the second decides wherever it says anything, and
/// the first elsewhere.
pub proof fn law_last_override_wins(
    config: KvCentricConfig,
    o1: KvCentricOverrides,
    o2: KvCentricOverrides,
)
    ensures
        config.overridden(o1).overridden(o2) == config.overridden(o1.followed_by(o2)),
{
}

/// What becomes of one coefficient: the replacement where there is one, else what it was.
pub open spec fn replaced<T>(replacement: Option<T>, before: T, after: T) -> bool {
    &&& replacement is Some ==> after == replacement->0
    &&& replacement is None ==> after == before
}

/// What becomes of every coefficient.
pub open spec fn retuned(
    before: KvCentricConfig,
    o: KvCentricOverrides,
    after: KvCentricConfig,
) -> bool {
    &&& replaced(o.kv_bytes_per_token, before.kv_bytes_per_token, after.kv_bytes_per_token)
    &&& replaced(o.block_size, before.block_size, after.block_size)
    &&& replaced(o.compute_overhead_ms, before.compute_overhead_ms, after.compute_overhead_ms)
    &&& replaced(o.compute_slope_ms, before.compute_slope_ms, after.compute_slope_ms)
    &&& replaced(o.compute_quad_ms, before.compute_quad_ms, after.compute_quad_ms)
    &&& replaced(o.load_overhead_ms, before.load_overhead_ms, after.load_overhead_ms)
    &&& replaced(o.l3_read_overhead_ms, before.l3_read_overhead_ms, after.l3_read_overhead_ms)
    &&& replaced(o.l3_read_per_token_ms, before.l3_read_per_token_ms, after.l3_read_per_token_ms)
    &&& replaced(o.balancing_threshold, before.balancing_threshold, after.balancing_threshold)
}

/// Overrides, given as they are or in a file, replace each coefficient that they hold, and leave
/// each other one at what it was before, whatever that was.
pub proof fn law_overrides_replace_what_they_hold(config: KvCentricConfig, o: KvCentricOverrides)
    ensures
        retuned(config, o, config.overridden(o)),
        retuned(config, o, config.overridden_by_file(OverrideFile::Overrides(o))),
{
}

/// What is said nothing of stays: a configuration is left as it was by overrides, and by a file,
/// that hold nothing.
pub proof fn law_nothing_held_changes_nothing(config: KvCentricConfig, o: KvCentricOverrides)
    requires
        o.kv_bytes_per_token is None,
        o.block_size is None,
        o.compute_overhead_ms is None,
        o.compute_slope_ms is None,
        o.compute_quad_ms is None,
        o.load_overhead_ms is None,
        o.l3_read_overhead_ms is None,
        o.l3_read_per_token_ms is None,
        o.balancing_threshold is None,
    ensures
        config.overridden(o) == config,
        config.overridden_by_file(OverrideFile::Overrides(o)) == config,
        o == KvCentricOverrides::none(),
{
}

/// Two files one after the other: of each coefficient the later file has the say where it holds it,
/// then the earlier one, then the configuration before both.
pub proof fn law_files_in_turn(
    config: KvCentricConfig,
    o1: KvCentricOverrides,
    o2: KvCentricOverrides,
    between: KvCentricConfig,
)
    requires
        retuned(config, o1, between),
    ensures
        retuned(
            between,
            o2,
            config.overridden_by_file(OverrideFile::Overrides(o1)).overridden_by_file(
                OverrideFile::Overrides(o2),
            ),
        ),
{
}

/// The variable decides whether the file counts: unset, or of white space alone, it leaves the
/// configuration as it was; else what the file holds replaces what was there, and a file that
/// cannot be read or understood changes nothing.
pub proof fn law_variable_names_the_file(
    config: KvCentricConfig,
    var: Option<Seq<char>>,
    file: OverrideFile,
)
    ensures
        var is None ==> config.overridden_by_env(var, file) == config,
        var matches Some(text) ==> ((forall|i: int|
            0 <= i < text.len() ==> white_space(#[trigger] text[i])) ==> config.overridden_by_env(
            var,
            file,
        ) == config),
        file !is Overrides ==> config.overridden_by_env(var, file) == config,
        (var is Some && exists|i: int|
            0 <= i < var->0.len() && !white_space(#[trigger] (var->0)[i])) ==> (
        file matches OverrideFile::Overrides(o) ==> retuned(
            config,
            o,
            config.overridden_by_env(var, file),
        )),
{
    if let Some(text) = var {
        lemma_trimmed(text);
    }
}

/// The file named is the part of the text between the first and the last character that is not
/// white space, and all that is left off is white space.
pub proof fn law_named_file_is_the_text(text: Seq<char>, i: int, j: int)
    requires
        0 <= i < j <= text.len(),
        forall|k: int| 0 <= k < i ==> white_space(#[trigger] text[k]),
        forall|k: int| j <= k < text.len() ==> white_space(#[trigger] text[k]),
        !white_space(text[i]),
        !white_space(text[j - 1]),
    ensures
        named_file(Some(text)) == Some(text.subrange(i, j)),
    decreases text.len(),
{
    if i > 0 {
        let rest: Seq<char> = text.drop_first();
        assert(white_space(text[0]));
        assert forall|k: int| 0 <= k < i - 1 implies white_space(#[trigger] rest[k]) by {
            assert(rest[k] == text[k + 1]);
        }
        assert forall|k: int| j - 1 <= k < rest.len() implies white_space(#[trigger] rest[k]) by {
            assert(rest[k] == text[k + 1]);
        }
        law_named_file_is_the_text(rest, i - 1, j - 1);
        assert(rest.subrange(i - 1, j - 1) =~= text.subrange(i, j));
    } else if j < text.len() {
        let rest: Seq<char> = text.drop_last();
        assert(white_space(text[text.len() - 1]));
        assert forall|k: int| j <= k < rest.len() implies white_space(#[trigger] rest[k]) by {
            assert(rest[k] == text[k]);
        }
        law_named_file_is_the_text(rest, i, j);
        assert(rest.subrange(i, j) =~= text.subrange(i, j));
    } else {
        assert(text.subrange(i, j) =~= text);
    }
}

/// A file that cannot be read or understood leaves the configuration as it was.
pub proof fn law_bad_file_changes_nothing(config: KvCentricConfig, file: OverrideFile)
    requires
        file !is Overrides,
    ensures
        config.overridden_by_file(file) == config,
{
}

/// A value of nothing but white space names no file, and any other value names one: itself,
/// without the white space at its ends.
pub proof fn law_blank_names_no_file(var: Seq<char>)
    ensures
        named_file(Some(var)) is None <==> forall|i: int|
            0 <= i < var.len() ==> white_space(#[trigger] var[i]),
        named_file(Some(var)) matches Some(path) ==> path.len() > 0 && !white_space(path.first())
            && !white_space(path.last()),
{
    lemma_trimmed(var);
}

proof fn lemma_trimmed(s: Seq<char>)
    ensures
        trimmed(s).len() == 0 <==> forall|i: int| 0 <= i < s.len() ==> white_space(#[trigger] s[i]),
        trimmed(s).len() > 0 ==> !white_space(trimmed(s).first()) && !white_space(trimmed(s).last()),
    decreases s.len(),
{
    if s.len() > 0 && white_space(s.first()) {
        let rest: Seq<char> = s.drop_first();
        lemma_trimmed(rest);
        assert forall|i: int| 0 <= i < s.len() && trimmed(s).len() == 0 implies white_space(
            #[trigger] s[i],
        ) by {
            if i > 0 {
                assert(rest[i - 1] == s[i]);
            }
        }
        if forall|i: int| 0 <= i < s.len() ==> white_space(#[trigger] s[i]) {
            assert forall|i: int| 0 <= i < rest.len() implies white_space(#[trigger] rest[i]) by {
                assert(rest[i] == s[i + 1]);
            }
        }
    } else if s.len() > 0 && white_space(s.last()) {
        let rest: Seq<char> = s.drop_last();
        lemma_trimmed(rest);
        assert(!white_space(s[0]));
        assert(rest[0] == s[0]);
    }
}

// ---- Cost of one worker ----

/// `b` is not below `a`. Nothing is below, or above, what is not a number.
pub open spec fn at_most(a: Binary64, b: Binary64) -> bool {
    !b.lt(a)
}

/// A coefficient that is not below zero.
pub open spec fn not_below_zero(x: Binary64) -> bool {
    !x.lt(Binary64 { bits: 0 })
}

impl KvCentricConfig {
    /// Every coefficient is a finite number that is not below zero.
    pub open spec fn calibrated(self) -> bool {
        &&& self.compute_overhead_ms.is_finite() && not_below_zero(self.compute_overhead_ms)
        &&& self.compute_slope_ms.is_finite() && not_below_zero(self.compute_slope_ms)
        &&& self.compute_quad_ms.is_finite() && not_below_zero(self.compute_quad_ms)
        &&& self.load_overhead_ms.is_finite() && not_below_zero(self.load_overhead_ms)
        &&& self.l3_read_overhead_ms.is_finite() && not_below_zero(self.l3_read_overhead_ms)
        &&& self.l3_read_per_token_ms.is_finite() && not_below_zero(self.l3_read_per_token_ms)
    }
}

/// The compute time is no less than that of the request alone, nor than that in the batch.
pub proof fn law_compute_covers_both(config: KvCentricConfig, c: nat, n: nat)
    requires
        c >= 1,
    ensures
        at_most(config.isolated_ms(n), config.compute_ms(c, n)),
        at_most(config.serialized_ms(c, n), config.compute_ms(c, n)),
        config.compute_ms(c, n) == config.isolated_ms(n) || config.compute_ms(c, n)
            == config.serialized_ms(c, n),
{
}

/// A batch of no requests is taken for one of one request.
pub proof fn law_concurrency_at_least_one(config: KvCentricConfig, n: nat)
    ensures
        config.compute_ms(0, n) == config.compute_ms(1, n),
{
}

/// More concurrency, or more tokens, never make a batch cheaper, wherever its cost is a number.
pub proof fn law_serialized_grows(config: KvCentricConfig, c1: nat, c2: nat, n1: nat, n2: nat)
    requires
        not_below_zero(config.compute_slope_ms),
        c1 <= c2,
        n1 <= n2,
        !config.serialized_ms(c1, n1).is_nan(),
        !config.serialized_ms(c2, n2).is_nan(),
    ensures
        config.serialized_ms(c1, n1).rank() <= config.serialized_ms(c2, n2).rank(),
{
    let (slope, load): (Binary64, Binary64) = (config.compute_slope_ms, config.load_overhead_ms);
    let (t1, t2): (Binary64, Binary64) = (Binary64::of_natural(n1), Binary64::of_natural(n2));
    let (f1, f2): (Binary64, Binary64) = (Binary64::of_natural(c1), Binary64::of_natural(c2));
    let (p1, p2): (Binary64, Binary64) = (slope.product(f1), slope.product(f2));
    let (q1, q2): (Binary64, Binary64) = (p1.product(t1), p2.product(t2));
    lemma_of_natural(c1, c2);
    lemma_of_natural(n1, n2);
    lemma_numbers_only(load, q1);
    lemma_numbers_only(load, q2);
    lemma_numbers_only(p1, t1);
    lemma_numbers_only(p2, t2);
    lemma_numbers_only(slope, f1);
    assert(Binary64 { bits: 0 }.rank() == 0);
    lemma_product_monotone(slope, f1, slope, f2);
    lemma_product_monotone(p1, t1, p2, t2);
    lemma_sum_monotone(load, q1, load, q2);
}

/// More tokens never make a request that runs alone cheaper, wherever its cost is a number.
pub proof fn law_isolated_grows(config: KvCentricConfig, n1: nat, n2: nat)
    requires
        not_below_zero(config.compute_slope_ms),
        not_below_zero(config.compute_quad_ms),
        n1 <= n2,
        !config.isolated_ms(n1).is_nan(),
        !config.isolated_ms(n2).is_nan(),
    ensures
        config.isolated_ms(n1).rank() <= config.isolated_ms(n2).rank(),
{
    let (slope, quad, overhead): (Binary64, Binary64, Binary64) = (
        config.compute_slope_ms,
        config.compute_quad_ms,
        config.compute_overhead_ms,
    );
    let (t1, t2): (Binary64, Binary64) = (Binary64::of_natural(n1), Binary64::of_natural(n2));
    let (l1, l2): (Binary64, Binary64) = (slope.product(t1), slope.product(t2));
    let (h1, h2): (Binary64, Binary64) = (overhead.sum(l1), overhead.sum(l2));
    let (p1, p2): (Binary64, Binary64) = (quad.product(t1), quad.product(t2));
    let (q1, q2): (Binary64, Binary64) = (p1.product(t1), p2.product(t2));
    lemma_of_natural(n1, n2);
    lemma_numbers_only(h1, q1);
    lemma_numbers_only(h2, q2);
    lemma_numbers_only(overhead, l1);
    lemma_numbers_only(overhead, l2);
    lemma_numbers_only(slope, t1);
    lemma_numbers_only(p1, t1);
    lemma_numbers_only(p2, t2);
    lemma_numbers_only(quad, t1);
    assert(Binary64 { bits: 0 }.rank() == 0);
    lemma_product_monotone(slope, t1, slope, t2);
    lemma_sum_monotone(overhead, l1, overhead, l2);
    lemma_product_monotone(quad, t1, quad, t2);
    lemma_product_monotone(p1, t1, p2, t2);
    lemma_sum_monotone(h1, q1, h2, q2);
}

/// More concurrency, or more tokens, never lower the compute time.
///
/// Left out is where one of its two parts turns from a number into none: there that part no
/// longer counts.
pub proof fn law_compute_grows(config: KvCentricConfig, c1: nat, c2: nat, n1: nat, n2: nat)
    requires
        not_below_zero(config.compute_slope_ms),
        n1 == n2 || not_below_zero(config.compute_quad_ms),
        1 <= c1 <= c2,
        n1 <= n2,
        config.isolated_ms(n2).is_nan() ==> config.isolated_ms(n1).is_nan(),
        config.serialized_ms(c2, n2).is_nan() ==> config.serialized_ms(c1, n1).is_nan(),
    ensures
        at_most(config.compute_ms(c1, n1), config.compute_ms(c2, n2)),
        config.compute_ms(c2, n2).is_nan() ==> config.compute_ms(c1, n1).is_nan(),
{
    if !config.serialized_ms(c1, n1).is_nan() {
        law_serialized_grows(config, c1, c2, n1, n2);
    }
    if n1 < n2 && !config.isolated_ms(n1).is_nan() {
        law_isolated_grows(config, n1, n2);
    }
    lemma_larger_monotone(
        config.isolated_ms(n1),
        config.serialized_ms(c1, n1),
        config.isolated_ms(n2),
        config.serialized_ms(c2, n2),
    );
}

/// Once the batch costs more than the request alone, it does so under every larger load.
pub proof fn law_load_decides_once(config: KvCentricConfig, c1: nat, c2: nat, n: nat)
    requires
        not_below_zero(config.compute_slope_ms),
        1 <= c1 <= c2,
        config.isolated_ms(n).lt(config.serialized_ms(c1, n)),
        !config.serialized_ms(c2, n).is_nan(),
    ensures
        config.compute_ms(c1, n) == config.serialized_ms(c1, n),
        config.compute_ms(c2, n) == config.serialized_ms(c2, n),
{
    law_serialized_grows(config, c1, c2, n, n);
}

/// A prompt that is cached in full costs the larger of the two overheads: a number in the same
/// place of the order, and the same number unless an overhead is the negative zero.
///
/// Left out is a slope that concurrency raises to infinity, of which no tokens make no number.
pub proof fn law_cached_prompt_costs_overhead(config: KvCentricConfig, c: nat)
    requires
        config.calibrated(),
        c >= 1,
        config.compute_slope_ms.product(Binary64::of_natural(c)).is_finite(),
    ensures
        ({
            let overhead = config.compute_overhead_ms.larger(config.load_overhead_ms);
            &&& !config.compute_ms(c, 0).is_nan()
            &&& config.compute_ms(c, 0).rank() == overhead.rank()
            &&& config.compute_overhead_ms.bits != SIGN && config.load_overhead_ms.bits != SIGN
                ==> config.compute_ms(c, 0) == overhead
        }),
{
    let zero: Binary64 = Binary64::of_natural(0);
    let factor: Binary64 = config.compute_slope_ms.product(Binary64::of_natural(c));
    lemma_natural_zero();
    lemma_zero_factor(config.compute_slope_ms, zero);
    lemma_zero_factor(config.compute_quad_ms, zero);
    lemma_zero_factor(config.compute_quad_ms.product(zero), zero);
    lemma_zero_factor(factor, zero);
    let line: Binary64 = config.compute_slope_ms.product(zero);
    lemma_sum_with_zero(config.compute_overhead_ms, line);
    lemma_sum_with_zero(
        config.compute_overhead_ms.sum(line),
        config.compute_quad_ms.product(zero).product(zero),
    );
    lemma_sum_with_zero(config.load_overhead_ms, factor.product(zero));
}

/// The estimate is never above that of using the local prefix alone, and with a pull it is below.
pub proof fn law_pull_only_where_cheaper(
    config: KvCentricConfig,
    prompt_tokens: nat,
    local: u32,
    best: u32,
    depth: nat,
    block_size: nat,
)
    ensures
        ({
            let alone = config.local_estimate(prompt_tokens, local, depth, block_size);
            let estimate = config.estimate(prompt_tokens, local, best, depth, block_size);
            &&& at_most(estimate.ttft_ms, alone.ttft_ms)
            &&& estimate != alone ==> estimate.ttft_ms.lt(alone.ttft_ms)
        }),
{
}

/// A remote prefix that is not ahead of the local one by more than the threshold is not pulled.
pub proof fn law_no_pull_within_threshold(
    config: KvCentricConfig,
    prompt_tokens: nat,
    local: u32,
    best: u32,
    depth: nat,
    block_size: nat,
)
    requires
        best <= local + config.balancing_threshold,
    ensures
        ({
            let estimate = config.estimate(prompt_tokens, local, best, depth, block_size);
            &&& estimate.pulled_tokens == 0
            &&& estimate.transfer_ms.bits == 0
            &&& estimate.new_tokens == excess(prompt_tokens as int, local * block_size) as usize
        }),
{
}

/// The time to first token is the compute time and the transfer time together.
///
/// Left out is a compute time, without a pull, of negative zero, to which adding the transfer
/// time of zero gives zero, and one that is not a number but not under the bit pattern that
/// sums have.
pub proof fn law_ttft_is_compute_and_transfer(
    config: KvCentricConfig,
    prompt_tokens: nat,
    local: u32,
    best: u32,
    depth: nat,
    block_size: nat,
)
    requires
        ({
            let alone = config.local_estimate(prompt_tokens, local, depth, block_size);
            config.estimate(prompt_tokens, local, best, depth, block_size) == alone ==> {
                &&& alone.compute_ms.bits != SIGN
                &&& alone.compute_ms.is_nan() ==> alone.compute_ms.bits == NOT_A_NUMBER
            }
        }),
    ensures
        ({
            let estimate = config.estimate(prompt_tokens, local, best, depth, block_size);
            estimate.ttft_ms == estimate.compute_ms.sum(estimate.transfer_ms)
        }),
{
    let alone: TtftEstimate = config.local_estimate(prompt_tokens, local, depth, block_size);
    if !alone.compute_ms.is_nan() && alone.compute_ms.bits != SIGN {
        lemma_sum_with_zero(alone.compute_ms, Binary64 { bits: 0 });
    }
}

/// Every token of the prompt is cached on the worker, pulled or computed, and none twice.
pub proof fn law_tokens_accounted_for(
    config: KvCentricConfig,
    prompt_tokens: nat,
    local: u32,
    best: u32,
    depth: nat,
    block_size: nat,
)
    requires
        prompt_tokens <= usize::MAX,
        local <= best,
        best * block_size <= prompt_tokens,
    ensures
        ({
            let estimate = config.estimate(prompt_tokens, local, best, depth, block_size);
            local * block_size + estimate.pulled_tokens + estimate.new_tokens == prompt_tokens
        }),
{
    assert(local * block_size <= best * block_size) by (nonlinear_arith)
        requires
            local <= best,
    ;
}

/// A request alone has a cost that is a number.
pub(crate) proof fn lemma_isolated_is_a_number(config: KvCentricConfig, n: nat)
    requires
        config.calibrated(),
        n <= u64::MAX,
    ensures
        !config.isolated_ms(n).is_nan(),
        config.isolated_ms(n).rank() >= 0,
{
    let t: Binary64 = Binary64::of_natural(n);
    lemma_of_natural(n, n);
    let line: Binary64 = config.compute_slope_ms.product(t);
    lemma_product_not_negative(config.compute_slope_ms, t);
    lemma_sum_not_negative(config.compute_overhead_ms, line);
    let p: Binary64 = config.compute_quad_ms.product(t);
    lemma_product_not_negative(config.compute_quad_ms, t);
    if t.rank() == 0 {
        // A product with zero is zero, and so finite.
        lemma_zero_factor(config.compute_quad_ms, t);
    }
    lemma_product_not_negative(p, t);
    lemma_sum_not_negative(config.compute_overhead_ms.sum(line), p.product(t));
}

/// Pulling has a cost that is a number.
proof fn lemma_l3_read_is_a_number(config: KvCentricConfig, n: nat)
    requires
        config.calibrated(),
        n <= u64::MAX,
    ensures
        !config.l3_read_ms(n).is_nan(),
        config.l3_read_ms(n).rank() >= 0,
{
    let t: Binary64 = Binary64::of_natural(n);
    lemma_of_natural(n, n);
    lemma_product_not_negative(config.l3_read_per_token_ms, t);
    lemma_sum_not_negative(config.l3_read_overhead_ms, config.l3_read_per_token_ms.product(t));
}

/// A batch of some tokens has a cost that is a number.
pub(crate) proof fn lemma_batch_is_a_number(config: KvCentricConfig, c: nat, n: nat)
    requires
        config.calibrated(),
        c <= u64::MAX,
        0 < n <= u64::MAX,
    ensures
        !config.serialized_ms(c, n).is_nan(),
{
    let (f, t): (Binary64, Binary64) = (Binary64::of_natural(c), Binary64::of_natural(n));
    lemma_of_natural(c, c);
    lemma_of_natural(n, n);
    lemma_natural_positive(n);
    let p: Binary64 = config.compute_slope_ms.product(f);
    assert(Binary64 { bits: 0 }.rank() == 0);
    lemma_product_not_negative(config.compute_slope_ms, f);
    lemma_product_not_negative(p, t);
    lemma_sum_not_negative(config.load_overhead_ms, p.product(t));
}

/// The estimate never falls where the compute times of both options rise.
proof fn lemma_estimate_grows(
    config: KvCentricConfig,
    n1: nat,
    n2: nat,
    local: u32,
    best: u32,
    d1: nat,
    d2: nat,
    block_size: nat,
)
    requires
        config.calibrated(),
        n1 <= n2 <= usize::MAX,
        d1 <= d2,
        ({
            let f1 = excess(n1 as int, local * block_size);
            let f2 = excess(n2 as int, local * block_size);
            config.serialized_ms(d2 + 1, f2).is_nan() ==> config.serialized_ms(d1 + 1, f1).is_nan()
        }),
        config.worth_a_pull(local, best) ==> best * block_size <= usize::MAX && ({
            let f1 = excess(n1 as int, best * block_size);
            let f2 = excess(n2 as int, best * block_size);
            config.serialized_ms(d2 + 1, f2).is_nan() ==> config.serialized_ms(d1 + 1, f1).is_nan()
        }),
    ensures
        at_most(
            config.estimate(n1, local, best, d1, block_size).ttft_ms,
            config.estimate(n2, local, best, d2, block_size).ttft_ms,
        ),
        !config.estimate(n1, local, best, d1, block_size).ttft_ms.is_nan(),
        !config.estimate(n2, local, best, d2, block_size).ttft_ms.is_nan(),
{
    assert(local * block_size >= 0) by (nonlinear_arith);
    assert(best * block_size >= 0) by (nonlinear_arith);
    assert(Binary64 { bits: 0 }.rank() == 0);
    let (l1, l2): (nat, nat) = (
        excess(n1 as int, local * block_size),
        excess(n2 as int, local * block_size),
    );
    lemma_isolated_is_a_number(config, l1);
    lemma_isolated_is_a_number(config, l2);
    law_compute_grows(config, d1 + 1, d2 + 1, l1, l2);
    if config.worth_a_pull(local, best) {
        let (p1, p2): (nat, nat) = (
            excess(n1 as int, best * block_size),
            excess(n2 as int, best * block_size),
        );
        let pulled: nat = excess(best * block_size, local * block_size);
        let transfer: Binary64 = config.l3_read_ms(pulled);
        lemma_isolated_is_a_number(config, p1);
        lemma_isolated_is_a_number(config, p2);
        lemma_l3_read_is_a_number(config, pulled);
        law_compute_grows(config, d1 + 1, d2 + 1, p1, p2);
        let (b1, b2): (Binary64, Binary64) = (
            config.compute_ms(d1 + 1, p1),
            config.compute_ms(d2 + 1, p2),
        );
        lemma_sum_not_negative(b1, transfer);
        lemma_sum_not_negative(b2, transfer);
        lemma_sum_monotone(b1, transfer, b2, transfer);
    }
}

/// A request more in a worker's queue never makes the worker look cheaper.
///
/// Left out are the costs in a batch that turn from a number into none: those of no tokens at all
/// under a slope that concurrency raises to infinity. Of a pull nothing is asked where none is
/// looked at.
pub proof fn law_estimate_grows_with_queue(
    config: KvCentricConfig,
    prompt_tokens: nat,
    local: u32,
    best: u32,
    d1: nat,
    d2: nat,
    block_size: nat,
)
    requires
        config.calibrated(),
        prompt_tokens <= usize::MAX,
        d1 <= d2,
        ({
            let fresh = excess(prompt_tokens as int, local * block_size);
            config.serialized_ms(d2 + 1, fresh).is_nan() ==> config.serialized_ms(
                d1 + 1,
                fresh,
            ).is_nan()
        }),
        config.worth_a_pull(local, best) ==> best * block_size <= usize::MAX && ({
            let fresh = excess(prompt_tokens as int, best * block_size);
            config.serialized_ms(d2 + 1, fresh).is_nan() ==> config.serialized_ms(
                d1 + 1,
                fresh,
            ).is_nan()
        }),
    ensures
        at_most(
            config.estimate(prompt_tokens, local, best, d1, block_size).ttft_ms,
            config.estimate(prompt_tokens, local, best, d2, block_size).ttft_ms,
        ),
        !config.estimate(prompt_tokens, local, best, d1, block_size).ttft_ms.is_nan(),
        !config.estimate(prompt_tokens, local, best, d2, block_size).ttft_ms.is_nan(),
{
    lemma_estimate_grows(config, prompt_tokens, prompt_tokens, local, best, d1, d2, block_size);
}

/// A longer prompt never makes a worker look cheaper.
pub proof fn law_estimate_grows_with_prompt(
    config: KvCentricConfig,
    n1: nat,
    n2: nat,
    local: u32,
    best: u32,
    depth: nat,
    block_size: nat,
)
    requires
        config.calibrated(),
        n1 <= n2 <= usize::MAX,
        depth < usize::MAX,
        config.worth_a_pull(local, best) ==> best * block_size <= usize::MAX,
    ensures
        at_most(
            config.estimate(n1, local, best, depth, block_size).ttft_ms,
            config.estimate(n2, local, best, depth, block_size).ttft_ms,
        ),
        !config.estimate(n1, local, best, depth, block_size).ttft_ms.is_nan(),
        !config.estimate(n2, local, best, depth, block_size).ttft_ms.is_nan(),
{
    assert(local * block_size >= 0) by (nonlinear_arith);
    assert(best * block_size >= 0) by (nonlinear_arith);
    let f: nat = excess(n2 as int, local * block_size);
    if f > 0 {
        lemma_batch_is_a_number(config, depth + 1, f);
    }
    let g: nat = excess(n2 as int, best * block_size);
    if g > 0 {
        lemma_batch_is_a_number(config, depth + 1, g);
    }
    lemma_estimate_grows(config, n1, n2, local, best, depth, depth, block_size);
}

// ---- Selection ----

/// A worker is selected exactly where there is a healthy one, and it is a healthy one.
pub proof fn law_selects_a_healthy_worker(
    policy: KvCentricPolicy,
    workers: Seq<WorkerState>,
    cache: Option<CacheModel>,
    r: Option<usize>,
    after: Seq<WorkerState>,
)
    requires
        workers.len() <= usize::MAX,
        policy.selects(workers, cache, r, after),
    ensures
        r is None <==> forall|i: int| 0 <= i < workers.len() ==> !(#[trigger] workers[i]).healthy,
        r matches Some(i) ==> i < workers.len() && workers[i as int].healthy,
{
    lemma_healthy_indices(workers);
    let healthy: Seq<usize> = healthy_indices(workers);
    if r is None {
        assert forall|i: int| 0 <= i < workers.len() implies !(#[trigger] workers[i]).healthy by {
            if workers[i].healthy {
                assert(healthy.contains(i as usize));
            }
        }
    }
}

/// A selection changes nothing but the count of reservations on the worker selected, which rises
/// by one if the worker performs prefill.
pub proof fn law_selection_reserves_once(
    policy: KvCentricPolicy,
    workers: Seq<WorkerState>,
    cache: Option<CacheModel>,
    r: Option<usize>,
    after: Seq<WorkerState>,
)
    requires
        workers.len() <= usize::MAX,
        policy.selects(workers, cache, r, after),
        r matches Some(i) ==> has_room(workers[i as int]),
    ensures
        after.len() == workers.len(),
        forall|j: int|
            0 <= j < workers.len() && r != Some(j as usize) ==> (#[trigger] after[j]) == workers[j],
        r matches Some(i) ==> {
            &&& after[i as int].url == workers[i as int].url
            &&& after[i as int].model_id == workers[i as int].model_id
            &&& after[i as int].worker_type == workers[i as int].worker_type
            &&& after[i as int].healthy == workers[i as int].healthy
            &&& after[i as int].prefill_inflight == workers[i as int].prefill_inflight + (
            if workers[i as int].worker_type == WorkerType::Decode {
                0int
            } else {
                1
            })
        },
{
    lemma_healthy_indices(workers);
}

/// Selecting a worker that only decodes reserves nothing.
pub proof fn law_decode_reserves_nothing(
    policy: KvCentricPolicy,
    workers: Seq<WorkerState>,
    cache: Option<CacheModel>,
    i: usize,
    after: Seq<WorkerState>,
)
    requires
        workers.len() <= usize::MAX,
        policy.selects(workers, cache, Some(i), after),
        workers[i as int].worker_type == WorkerType::Decode,
    ensures
        after == workers,
{
    lemma_healthy_indices(workers);
    assert(after =~= workers);
}

/// The cost model is applied where the prompt has tokens, there is a monitor, and the monitor has
/// an index for the model of the first healthy worker; and nowhere else.
pub proof fn law_when_costs_decide(
    policy: KvCentricPolicy,
    workers: Seq<WorkerState>,
    info: SelectWorkerInfo,
    cache: Option<CacheModel>,
)
    requires
        policy.can_model(workers, info, cache),
    ensures
        cache is Some <==> {
            &&& info.tokens is Some && info.tokens->0@.len() > 0
            &&& policy.kv_monitor is Some
            &&& exists|m: int|
                0 <= m < policy.kv_monitor->0.models@.len() && (
                #[trigger] policy.kv_monitor->0.models@[m]).model_id@
                    == workers[healthy_indices(workers)[0] as int].model_id@
        },
{
    if let Some(monitor) = policy.kv_monitor {
        lemma_first_entry(
            monitor.models@,
            workers[healthy_indices(workers)[0] as int].model_id@,
        );
    }
}

proof fn lemma_first_entry(models: Seq<ModelIndex>, model_id: Seq<char>)
    ensures
        first_entry(models, model_id) is Some <==> exists|m: int|
            0 <= m < models.len() && (#[trigger] models[m]).model_id@ == model_id,
    decreases models.len(),
{
    if models.len() > 0 && models.first().model_id@ != model_id {
        let rest: Seq<ModelIndex> = models.drop_first();
        lemma_first_entry(rest, model_id);
        if first_entry(rest, model_id) is Some {
            let m: int = choose|m: int| 0 <= m < rest.len() && (#[trigger] rest[m]).model_id@ == model_id;
            assert(models[m + 1].model_id@ == model_id);
        }
        if exists|m: int| 0 <= m < models.len() && (#[trigger] models[m]).model_id@ == model_id {
            let m: int = choose|m: int|
                0 <= m < models.len() && (#[trigger] models[m]).model_id@ == model_id;
            assert(rest[m - 1] == models[m]);
        }
    } else if models.len() > 0 {
        assert(models[0].model_id@ == model_id);
    }
}

/// The worker selected has the least estimated time to first token: no healthy worker is below
/// it, and its estimate is a number wherever any is.
pub proof fn law_minimizes_ttft(
    policy: KvCentricPolicy,
    workers: Seq<WorkerState>,
    cache: CacheModel,
    i: usize,
    after: Seq<WorkerState>,
)
    requires
        healthy_indices(workers).len() > 1,
        policy.selects(workers, Some(cache), Some(i), after),
    ensures
        exists|p: int|
            #![trigger policy.estimate_at(workers, cache, p)]
            0 <= p < healthy_indices(workers).len() && healthy_indices(workers)[p] == i && (forall|
                q: int,
            |
                0 <= q < healthy_indices(workers).len() ==> at_most(
                    policy.estimate_at(workers, cache, p).ttft_ms,
                    (#[trigger] policy.estimate_at(workers, cache, q)).ttft_ms,
                ) && (policy.estimate_at(workers, cache, p).ttft_ms.is_nan()
                    ==> policy.estimate_at(workers, cache, q).ttft_ms.is_nan())),
{
    let healthy: Seq<usize> = healthy_indices(workers);
    let costs: Seq<Binary64> = policy.healthy_costs(workers, cache);
    let p: int = choose|p: int| #[trigger]
        policy.chooses(workers, Some(cache), p) && Some(i) == Some(healthy[p]) && after
            == with_reservation(workers, healthy[p]);
    assert forall|q: int| 0 <= q < healthy.len() implies at_most(
        policy.estimate_at(workers, cache, p).ttft_ms,
        (#[trigger] policy.estimate_at(workers, cache, q)).ttft_ms,
    ) && (policy.estimate_at(workers, cache, p).ttft_ms.is_nan() ==> policy.estimate_at(
        workers,
        cache,
        q,
    ).ttft_ms.is_nan()) by {
        assert(costs[q] == policy.estimate_at(workers, cache, q).ttft_ms);
        assert(costs[p] == policy.estimate_at(workers, cache, p).ttft_ms);
    }
}

/// Without a model of the caches the worker selected has the fewest requests in flight of the
/// healthy workers.
pub proof fn law_falls_back_to_least_loaded(
    policy: KvCentricPolicy,
    workers: Seq<WorkerState>,
    i: usize,
    after: Seq<WorkerState>,
)
    requires
        workers.len() <= usize::MAX,
        policy.selects(workers, None, Some(i), after),
    ensures
        forall|j: int|
            0 <= j < workers.len() && (#[trigger] workers[j]).healthy
                ==> workers[i as int].prefill_inflight <= workers[j].prefill_inflight,
{
    lemma_healthy_indices(workers);
    let healthy: Seq<usize> = healthy_indices(workers);
    let loads: Seq<usize> = healthy_loads(workers);
    let p: int = choose|p: int| #[trigger]
        policy.chooses(workers, None, p) && Some(i) == Some(healthy[p]) && after
            == with_reservation(workers, healthy[p]);
    assert forall|j: int| 0 <= j < workers.len() && (#[trigger] workers[j]).healthy implies workers[i as int].prefill_inflight
        <= workers[j].prefill_inflight by {
        assert(healthy.contains(j as usize));
        let q: int = choose|q: int| 0 <= q < healthy.len() && healthy[q] == j as usize;
        assert(loads[p] == workers[i as int].prefill_inflight);
        assert(loads[q] == workers[j].prefill_inflight);
    }
}

/// The position of the least of some loads.
proof fn lemma_some_least_loaded(loads: Seq<usize>) -> (p: int)
    requires
        loads.len() > 0,
    ensures
        is_least_loaded(loads, p),
    decreases loads.len(),
{
    if loads.len() == 1 {
        0
    } else {
        let rest: Seq<usize> = loads.drop_last();
        let q: int = lemma_some_least_loaded(rest);
        assert forall|i: int| 0 <= i < rest.len() implies rest[q] <= #[trigger] loads[i] by {
            assert(rest[i] == loads[i]);
        }
        assert forall|i: int| 0 <= i < q implies rest[q] < #[trigger] loads[i] by {
            assert(rest[i] == loads[i]);
        }
        if loads.last() < rest[q] {
            loads.len() - 1
        } else {
            q
        }
    }
}

/// The position of the least of some costs.
proof fn lemma_some_cheapest(costs: Seq<Binary64>) -> (p: int)
    requires
        costs.len() > 0,
    ensures
        is_cheapest(costs, p),
    decreases costs.len(),
{
    if costs.len() == 1 {
        0
    } else {
        let rest: Seq<Binary64> = costs.drop_last();
        let q: int = lemma_some_cheapest(rest);
        let last: Binary64 = costs.last();
        assert forall|i: int| 0 <= i < rest.len() implies costs[i] == #[trigger] rest[i] by {}
        assert forall|i: int| 0 <= i < rest.len() implies !(#[trigger] costs[i]).lt(rest[q]) && (
        rest[q].is_nan() ==> costs[i].is_nan()) by {
            assert(rest[i] == costs[i]);
        }
        assert forall|i: int| 0 <= i < q implies (#[trigger] costs[i]).is_nan() || rest[q].lt(
            costs[i],
        ) by {
            assert(rest[i] == costs[i]);
        }
        if last.lt(rest[q]) || (rest[q].is_nan() && !last.is_nan()) {
            costs.len() - 1
        } else {
            q
        }
    }
}

/// What becomes of the workers where `r` is selected among them.
pub open spec fn reserved_for(workers: Seq<WorkerState>, r: Option<usize>) -> Seq<WorkerState> {
    match r {
        Some(i) => with_reservation(workers, i),
        None => workers,
    }
}

/// Whatever the workers and the model of the caches, there is a selection.
pub proof fn law_selection_exists(
    policy: KvCentricPolicy,
    workers: Seq<WorkerState>,
    cache: Option<CacheModel>,
)
    ensures
        exists|r: Option<usize>|
            policy.selects(workers, cache, r, #[trigger] reserved_for(workers, r)),
{
    let healthy: Seq<usize> = healthy_indices(workers);
    if healthy.len() == 0 {
        assert(policy.selects(workers, cache, None, reserved_for(workers, None)));
    } else {
        let p: int = if healthy.len() == 1 {
            0
        } else {
            match cache {
                Some(cm) => lemma_some_cheapest(policy.healthy_costs(workers, cm)),
                None => lemma_some_least_loaded(healthy_loads(workers)),
            }
        };
        assert(policy.chooses(workers, cache, p));
        let r: Option<usize> = Some(healthy[p]);
        assert(policy.selects(workers, cache, r, reserved_for(workers, r)));
    }
}

/// Given the workers and the model of the caches, there is one selection only.
pub proof fn law_selection_is_determined(
    policy: KvCentricPolicy,
    workers: Seq<WorkerState>,
    cache: Option<CacheModel>,
    r1: Option<usize>,
    after1: Seq<WorkerState>,
    r2: Option<usize>,
    after2: Seq<WorkerState>,
)
    requires
        policy.selects(workers, cache, r1, after1),
        policy.selects(workers, cache, r2, after2),
    ensures
        r1 == r2,
        after1 == after2,
{
    let healthy: Seq<usize> = healthy_indices(workers);
    if healthy.len() > 0 {
        let p: int = choose|p: int| #[trigger]
            policy.chooses(workers, cache, p) && r1 == Some(healthy[p]) && after1
                == with_reservation(workers, healthy[p]);
        let q: int = choose|q: int| #[trigger]
            policy.chooses(workers, cache, q) && r2 == Some(healthy[q]) && after2
                == with_reservation(workers, healthy[q]);
        assert(p == q) by {
            if healthy.len() > 1 {
                match cache {
                    Some(cm) => {
                        lemma_one_cheapest(policy.healthy_costs(workers, cm), p, q);
                    },
                    None => {
                        let loads: Seq<usize> = healthy_loads(workers);
                        assert(loads[p] <= loads[q] && loads[q] <= loads[p]);
                    },
                }
            }
        }
    }
}

proof fn lemma_one_cheapest(costs: Seq<Binary64>, p: int, q: int)
    requires
        is_cheapest(costs, p),
        is_cheapest(costs, q),
    ensures
        p == q,
{
    if p < q {
        assert(!costs[q].lt(costs[p]));
        assert(costs[p].is_nan() || costs[q].lt(costs[p]));
    }
    if q < p {
        assert(!costs[p].lt(costs[q]));
        assert(costs[q].is_nan() || costs[p].lt(costs[q]));
    }
}

/// A reservation changes no worker's health.
proof fn lemma_same_health(workers: Seq<WorkerState>, after: Seq<WorkerState>)
    requires
        after.len() == workers.len(),
        forall|i: int| 0 <= i < workers.len() ==> (#[trigger] after[i]).healthy == workers[i].healthy,
    ensures
        healthy_indices(after) == healthy_indices(workers),
    decreases workers.len(),
{
    if workers.len() > 0 {
        let (a, w): (Seq<WorkerState>, Seq<WorkerState>) = (after.drop_last(), workers.drop_last());
        assert forall|i: int| 0 <= i < w.len() implies (#[trigger] a[i]).healthy == w[i].healthy by {
            assert(a[i] == after[i]);
        }
        lemma_same_health(w, a);
        assert(after[after.len() - 1].healthy == workers[workers.len() - 1].healthy);
    }
}

/// Which models of the caches there can be depends on the healthy workers' URLs and models alone.
pub(crate) proof fn lemma_same_model(
    policy: KvCentricPolicy,
    w1: Seq<WorkerState>,
    w2: Seq<WorkerState>,
    info: SelectWorkerInfo,
    cache: Option<CacheModel>,
)
    requires
        w1.len() == w2.len() <= usize::MAX,
        forall|i: int| 0 <= i < w1.len() ==> (#[trigger] w2[i]).healthy == w1[i].healthy,
        forall|i: int|
            0 <= i < w1.len() && (#[trigger] w2[i]).healthy ==> w1[i].url == w2[i].url
                && w1[i].model_id == w2[i].model_id,
        healthy_indices(w1).len() > 0,
    ensures
        healthy_indices(w1) == healthy_indices(w2),
        policy.can_model(w1, info, cache) == policy.can_model(w2, info, cache),
{
    let healthy: Seq<usize> = healthy_indices(w1);
    lemma_same_health(w1, w2);
    lemma_healthy_indices(w1);
    assert(w2[healthy[0] as int].healthy);
    assert(healthy_urls(w1) =~= healthy_urls(w2)) by {
        assert forall|p: int| 0 <= p < healthy.len() implies (#[trigger] healthy_urls(w1)[p])
            == healthy_urls(w2)[p] by {
            assert(w2[healthy[p] as int].healthy);
        }
    }
}

/// The same workers are healthy, and those that are healthy are the same.
pub open spec fn same_candidates(w1: Seq<WorkerState>, w2: Seq<WorkerState>) -> bool {
    &&& w1.len() == w2.len()
    &&& forall|i: int| 0 <= i < w1.len() ==> (#[trigger] w2[i]).healthy == w1[i].healthy
    &&& forall|i: int| 0 <= i < w1.len() && (#[trigger] w2[i]).healthy ==> w1[i] == w2[i]
}

/// A worker that is not healthy has no part in a selection, whatever its URL, its model, its type
/// or its requests in flight: the model of the caches, the worker selected and the reservation are
/// the same.
pub proof fn law_unhealthy_do_not_matter(
    policy: KvCentricPolicy,
    w1: Seq<WorkerState>,
    w2: Seq<WorkerState>,
    info: SelectWorkerInfo,
    cache: Option<CacheModel>,
    r: Option<usize>,
)
    requires
        w1.len() <= usize::MAX,
        same_candidates(w1, w2),
    ensures
        healthy_indices(w1).len() > 0 ==> (policy.can_model(w1, info, cache) <==> policy.can_model(
            w2,
            info,
            cache,
        )),
        policy.selects(w1, cache, r, reserved_for(w1, r)) <==> policy.selects(
            w2,
            cache,
            r,
            reserved_for(w2, r),
        ),
{
    let healthy: Seq<usize> = healthy_indices(w1);
    lemma_same_health(w1, w2);
    lemma_healthy_indices(w1);
    if healthy.len() > 0 {
        lemma_same_model(policy, w1, w2, info, cache);
        assert forall|p: int| 0 <= p < healthy.len() implies w1[(#[trigger] healthy[p]) as int]
            == w2[healthy[p] as int] by {
            assert(w2[healthy[p] as int].healthy);
        }
        assert(healthy_loads(w1) =~= healthy_loads(w2));
        if let Some(cm) = cache {
            assert(policy.healthy_costs(w1, cm) =~= policy.healthy_costs(w2, cm));
        }
        if policy.selects(w1, cache, r, reserved_for(w1, r)) {
            let p: int = choose|p: int| #[trigger]
                policy.chooses(w1, cache, p) && r == Some(healthy[p]) && reserved_for(w1, r)
                    == with_reservation(w1, healthy[p]);
            assert(policy.chooses(w2, cache, p));
        }
        if policy.selects(w2, cache, r, reserved_for(w2, r)) {
            let p: int = choose|p: int| #[trigger]
                policy.chooses(w2, cache, p) && r == Some(healthy[p]) && reserved_for(w2, r)
                    == with_reservation(w2, healthy[p]);
            assert(policy.chooses(w1, cache, p));
        }
    }
}

/// The next selection sees the reservation of this one: on the worker selected it counts one
/// request more, if that worker performs prefill, and on every other healthy worker the same.
pub proof fn law_reservation_is_seen(
    policy: KvCentricPolicy,
    workers: Seq<WorkerState>,
    cache: Option<CacheModel>,
    i: usize,
    after: Seq<WorkerState>,
)
    requires
        workers.len() <= usize::MAX,
        policy.selects(workers, cache, Some(i), after),
        workers[i as int].worker_type != WorkerType::Decode,
        workers[i as int].prefill_inflight < usize::MAX,
    ensures
        healthy_indices(after) == healthy_indices(workers),
        forall|q: int|
            0 <= q < healthy_indices(workers).len() ==> (#[trigger] healthy_loads(after)[q])
                == healthy_loads(workers)[q] + (if healthy_indices(workers)[q] == i {
                1int
            } else {
                0
            }),
        forall|q: int, cm: CacheModel|
            0 <= q < healthy_indices(workers).len() ==> (#[trigger] policy.estimate_at(after, cm, q))
                == if healthy_indices(workers)[q] == i {
                policy.config.estimate(
                    cm.prompt_tokens as nat,
                    cm.local_cached@[q],
                    cm.best_cached_blocks,
                    workers[i as int].prefill_inflight as nat + 1,
                    cm.block_size as nat,
                )
            } else {
                policy.estimate_at(workers, cm, q)
            },
{
    lemma_healthy_indices(workers);
    let healthy: Seq<usize> = healthy_indices(workers);
    lemma_same_health(workers, after);
    assert forall|q: int| 0 <= q < healthy.len() implies after[healthy[q] as int].prefill_inflight
        == workers[(#[trigger] healthy[q]) as int].prefill_inflight + (if healthy[q] == i {
        1int
    } else {
        0
    }) by {
        assert(workers[healthy[q] as int].healthy);
    }
}

/// A burst does not herd: where another healthy worker was no more loaded than the one selected,
/// the next selection by load goes elsewhere.
pub proof fn law_burst_spreads(
    policy: KvCentricPolicy,
    workers: Seq<WorkerState>,
    i: usize,
    after: Seq<WorkerState>,
    j: usize,
    after_next: Seq<WorkerState>,
    k: usize,
)
    requires
        workers.len() <= usize::MAX,
        policy.selects(workers, None, Some(i), after),
        policy.selects(after, None, Some(j), after_next),
        workers[i as int].worker_type != WorkerType::Decode,
        workers[i as int].prefill_inflight < usize::MAX,
        k < workers.len(),
        k != i,
        workers[k as int].healthy,
        workers[k as int].prefill_inflight <= workers[i as int].prefill_inflight,
    ensures
        j != i,
{
    law_selects_a_healthy_worker(policy, workers, None, Some(i), after);
    law_selection_reserves_once(policy, workers, None, Some(i), after);
    assert(after[k as int] == workers[k as int]);
    law_falls_back_to_least_loaded(policy, after, j, after_next);
}

/// The same in the cost model: where the reservation lifts the worker selected, the healthy one at
/// position `p`, above another healthy one at position `q`, the next selection goes elsewhere.
pub proof fn law_burst_spreads_by_cost(
    policy: KvCentricPolicy,
    workers: Seq<WorkerState>,
    cache: CacheModel,
    p: int,
    after: Seq<WorkerState>,
    q: int,
    j: usize,
    after_next: Seq<WorkerState>,
)
    requires
        workers.len() <= usize::MAX,
        0 <= p < healthy_indices(workers).len(),
        0 <= q < healthy_indices(workers).len(),
        p != q,
        workers[healthy_indices(workers)[p] as int].worker_type != WorkerType::Decode,
        workers[healthy_indices(workers)[p] as int].prefill_inflight < usize::MAX,
        policy.selects(workers, Some(cache), Some(healthy_indices(workers)[p]), after),
        policy.selects(after, Some(cache), Some(j), after_next),
        policy.estimate_at(workers, cache, q).ttft_ms.lt(
            policy.config.estimate(
                cache.prompt_tokens as nat,
                cache.local_cached@[p],
                cache.best_cached_blocks,
                workers[healthy_indices(workers)[p] as int].prefill_inflight as nat + 1,
                cache.block_size as nat,
            ).ttft_ms,
        ),
    ensures
        j != healthy_indices(workers)[p],
{
    let healthy: Seq<usize> = healthy_indices(workers);
    lemma_healthy_indices(workers);
    law_reservation_is_seen(policy, workers, Some(cache), healthy[p], after);
    let costs: Seq<Binary64> = policy.healthy_costs(after, cache);
    let s: int = choose|s: int| #[trigger]
        policy.chooses(after, Some(cache), s) && Some(j) == Some(healthy[s]) && after_next
            == with_reservation(after, healthy[s]);
    assert(healthy[q] != healthy[p]);
    assert(costs[q] == policy.estimate_at(after, cache, q).ttft_ms);
    assert(costs[p] == policy.estimate_at(after, cache, p).ttft_ms);
    assert(!costs[q].is_nan());
    if healthy[s] == healthy[p] {
        assert(s == p);
        assert(!costs[q].lt(costs[s]));
    }
}

/// The loads of the healthy workers are within one of each other.
pub open spec fn balanced(workers: Seq<WorkerState>) -> bool {
    forall|i: int, j: int|
        0 <= i < workers.len() && 0 <= j < workers.len() && (#[trigger] workers[i]).healthy && (
        #[trigger] workers[j]).healthy ==> workers[i].prefill_inflight <= workers[j].prefill_inflight
            + 1
}

/// Selections by load keep the healthy workers balanced.
pub proof fn law_fallback_keeps_balance(
    policy: KvCentricPolicy,
    workers: Seq<WorkerState>,
    r: Option<usize>,
    after: Seq<WorkerState>,
)
    requires
        workers.len() <= usize::MAX,
        balanced(workers),
        policy.selects(workers, None, r, after),
        r matches Some(i) ==> has_room(workers[i as int]),
    ensures
        balanced(after),
{
    if let Some(i) = r {
        law_selects_a_healthy_worker(policy, workers, None, r, after);
        law_selection_reserves_once(policy, workers, None, r, after);
        law_falls_back_to_least_loaded(policy, workers, i, after);
        assert forall|a: int, b: int|
            0 <= a < after.len() && 0 <= b < after.len() && (#[trigger] after[a]).healthy && (
            #[trigger] after[b]).healthy implies after[a].prefill_inflight
            <= after[b].prefill_inflight + 1 by {
            assert(a == i || after[a] == workers[a]);
            assert(b == i || after[b] == workers[b]);
            assert(workers[a].healthy && workers[b].healthy);
        }
    }
}

/// Different members of a collection are no more than its members. As many leave none out, and
/// fewer leave some out.
proof fn lemma_distinct_members(some: Seq<Option<usize>>, all: Seq<usize>)
    requires
        some.no_duplicates(),
        all.no_duplicates(),
        forall|t: int|
            0 <= t < some.len() ==> (#[trigger] some[t]) is Some && all.contains(some[t]->0),
    ensures
        some.len() <= all.len(),
        some.len() == all.len() ==> forall|k: int|
            0 <= k < all.len() ==> some.contains(Some(#[trigger] all[k])),
        some.len() < all.len() ==> exists|k: int|
            0 <= k < all.len() && !some.contains(Some(#[trigger] all[k])),
{
    let wrapped: Seq<Option<usize>> = all.map_values(|i: usize| Some(i));
    assert forall|a: int, b: int| 0 <= a < wrapped.len() && 0 <= b < wrapped.len() && a != b implies wrapped[a]
        != wrapped[b] by {
        assert(all[a] != all[b]);
    }
    assert(wrapped.no_duplicates());
    assert forall|x: Option<usize>| #[trigger] some.to_set().contains(x) implies wrapped.to_set().contains(
        x,
    ) by {
        let t: int = choose|t: int| 0 <= t < some.len() && some[t] == x;
        assert(all.contains(some[t]->0));
        let k: int = choose|k: int| 0 <= k < all.len() && all[k] == some[t]->0;
        assert(wrapped[k] == x);
    }
    some.unique_seq_to_set();
    wrapped.unique_seq_to_set();
    vstd::seq_lib::seq_to_set_is_finite(some);
    vstd::seq_lib::seq_to_set_is_finite(wrapped);
    vstd::set_lib::lemma_len_subset(some.to_set(), wrapped.to_set());
    if some.len() == all.len() {
        vstd::set_lib::lemma_subset_equality(some.to_set(), wrapped.to_set());
        assert forall|k: int| 0 <= k < all.len() implies some.contains(Some(#[trigger] all[k])) by {
            assert(wrapped[k] == Some(all[k]));
            assert(wrapped.to_set().contains(wrapped[k]));
        }
    }
    if forall|k: int| 0 <= k < all.len() ==> some.contains(Some(#[trigger] all[k])) {
        assert forall|x: Option<usize>| #[trigger] wrapped.to_set().contains(x) implies some.to_set().contains(
            x,
        ) by {
            let k: int = choose|k: int| 0 <= k < wrapped.len() && wrapped[k] == x;
            assert(some.contains(Some(all[k])));
        }
        vstd::set_lib::lemma_len_subset(wrapped.to_set(), some.to_set());
    }
}

/// Selections in a row: `results[t]` is selected for request `infos[t]` among the workers as they
/// are in `states[t]`, and `states[t + 1]` is what becomes of them.
pub open spec fn in_a_row(
    policy: KvCentricPolicy,
    states: Seq<Seq<WorkerState>>,
    infos: Seq<SelectWorkerInfo>,
    results: Seq<Option<usize>>,
) -> bool {
    &&& infos.len() == results.len()
    &&& states.len() == results.len() + 1
    &&& forall|t: int|
        #![trigger results[t]]
        0 <= t < results.len() ==> policy.can_select(states[t], infos[t], results[t], states[t + 1])
}

/// Every healthy worker performs prefill, and all have the same number of requests in flight.
pub open spec fn level(workers: Seq<WorkerState>) -> bool {
    &&& forall|i: int, j: int|
        0 <= i < workers.len() && 0 <= j < workers.len() && (#[trigger] workers[i]).healthy && (
        #[trigger] workers[j]).healthy ==> workers[i].prefill_inflight
            == workers[j].prefill_inflight
    &&& forall|i: int|
        0 <= i < workers.len() && (#[trigger] workers[i]).healthy ==> workers[i].worker_type
            != WorkerType::Decode
}

/// What a state has in common with the first one of a burst: everything but the reservations, of
/// which each worker selected so far has one more.
spec fn reserved_so_far(
    first: Seq<WorkerState>,
    now: Seq<WorkerState>,
    selected: Seq<Option<usize>>,
) -> bool {
    &&& now.len() == first.len()
    &&& forall|i: int|
        0 <= i < first.len() ==> (#[trigger] now[i]) == if selected.contains(Some(i as usize)) {
            reserved(first[i])
        } else {
            first[i]
        }
}

proof fn lemma_burst_step(
    policy: KvCentricPolicy,
    first: Seq<WorkerState>,
    now: Seq<WorkerState>,
    selected: Seq<Option<usize>>,
    info: SelectWorkerInfo,
    r: Option<usize>,
    next: Seq<WorkerState>,
)
    requires
        first.len() <= usize::MAX,
        countable(first),
        level(first),
        policy.applicable(first, info) is None,
        selected.no_duplicates(),
        selected.len() < healthy_indices(first).len(),
        forall|t: int|
            0 <= t < selected.len() ==> (#[trigger] selected[t]) is Some && healthy_indices(
                first,
            ).contains(selected[t]->0),
        reserved_so_far(first, now, selected),
        policy.can_select(now, info, r, next),
    ensures
        r is Some,
        healthy_indices(first).contains(r->0),
        !selected.contains(r),
        reserved_so_far(first, next, selected.push(r)),
{
    let healthy: Seq<usize> = healthy_indices(first);
    lemma_healthy_indices(first);
    assert(healthy.no_duplicates());
    lemma_same_health(first, now);
    lemma_healthy_indices(now);
    // The model that the first healthy worker serves is still the same.
    let h: int = healthy[0] as int;
    assert(now[h].model_id == first[h].model_id);
    assert(policy.applicable(now, info) is None);
    assert(policy.selects(now, None, r, next));
    let p: int = choose|p: int| #[trigger]
        policy.chooses(now, None, p) && r == Some(healthy[p]) && next == with_reservation(
            now,
            healthy[p],
        );
    let i: usize = healthy[p];
    // Some healthy worker has not been selected yet, and has no reservation from this burst.
    lemma_distinct_members(selected, healthy);
    let k: int = choose|k: int| 0 <= k < healthy.len() && !selected.contains(Some(#[trigger] healthy[k]));
    let j: int = healthy[k] as int;
    assert(first[j].healthy && first[i as int].healthy);
    assert(now[j] == first[j]);
    law_falls_back_to_least_loaded(policy, now, i, next);
    assert(now[i as int].prefill_inflight <= now[j].prefill_inflight);
    assert(!selected.contains(r));
    let both: Seq<Option<usize>> = selected.push(r);
    assert(both[selected.len() as int] == r);
    assert forall|w: int| 0 <= w < first.len() implies (#[trigger] next[w]) == if both.contains(
        Some(w as usize),
    ) {
        reserved(first[w])
    } else {
        first[w]
    } by {
        if w == i {
            assert(both.contains(Some(i)));
        } else if selected.contains(Some(w as usize)) {
            let t: int = choose|t: int| 0 <= t < selected.len() && selected[t] == Some(w as usize);
            assert(both[t] == Some(w as usize));
        } else if both.contains(Some(w as usize)) {
            let t: int = choose|t: int| 0 <= t < both.len() && both[t] == Some(w as usize);
            assert(t < selected.len() ==> selected[t] == both[t]);
        }
    }
}

proof fn lemma_burst(
    policy: KvCentricPolicy,
    states: Seq<Seq<WorkerState>>,
    infos: Seq<SelectWorkerInfo>,
    results: Seq<Option<usize>>,
    n: int,
)
    requires
        in_a_row(policy, states, infos, results),
        0 <= n <= results.len() <= healthy_indices(states[0]).len(),
        states[0].len() <= usize::MAX,
        countable(states[0]),
        level(states[0]),
        forall|t: int|
            0 <= t < infos.len() ==> policy.applicable(states[0], #[trigger] infos[t]) is None,
    ensures
        results.take(n).no_duplicates(),
        forall|t: int|
            0 <= t < n ==> (#[trigger] results[t]) is Some && healthy_indices(states[0]).contains(
                results[t]->0,
            ),
        reserved_so_far(states[0], states[n], results.take(n)),
    decreases n,
{
    if n > 0 {
        let m: int = n - 1;
        lemma_burst(policy, states, infos, results, m);
        let selected: Seq<Option<usize>> = results.take(m);
        assert(policy.can_select(states[m], infos[m], results[m], states[m + 1]));
        lemma_burst_step(
            policy,
            states[0],
            states[m],
            selected,
            infos[m],
            results[m],
            states[m + 1],
        );
        assert(results.take(n) =~= selected.push(results[m]));
        assert forall|a: int, b: int| 0 <= a < n && 0 <= b < n && a != b implies results.take(n)[a]
            != results.take(n)[b] by {
            if a == m {
                assert(selected[b] == results[b]);
                assert(selected.contains(results[b]));
            } else if b == m {
                assert(selected[a] == results[a]);
                assert(selected.contains(results[a]));
            } else {
                assert(selected[a] == results[a] && selected[b] == results[b]);
            }
        }
    }
}

/// A burst goes round: without a cost model, and where every healthy worker performs prefill and
/// all of them start with the same number of requests in flight, the first selections in a row
/// visit different workers, and as many as there are healthy workers visit each of them exactly
/// once.
pub proof fn law_burst_visits_each_once(
    policy: KvCentricPolicy,
    states: Seq<Seq<WorkerState>>,
    infos: Seq<SelectWorkerInfo>,
    results: Seq<Option<usize>>,
)
    requires
        in_a_row(policy, states, infos, results),
        results.len() <= healthy_indices(states[0]).len(),
        states[0].len() <= usize::MAX,
        countable(states[0]),
        level(states[0]),
        forall|t: int|
            0 <= t < infos.len() ==> policy.applicable(states[0], #[trigger] infos[t]) is None,
    ensures
        results.no_duplicates(),
        forall|t: int|
            0 <= t < results.len() ==> (#[trigger] results[t]) is Some && healthy_indices(
                states[0],
            ).contains(results[t]->0),
        results.len() == healthy_indices(states[0]).len() ==> forall|k: int|
            0 <= k < healthy_indices(states[0]).len() ==> results.contains(
                Some(#[trigger] healthy_indices(states[0])[k]),
            ),
{
    let healthy: Seq<usize> = healthy_indices(states[0]);
    lemma_burst(policy, states, infos, results, results.len() as int);
    assert(results.take(results.len() as int) =~= results);
    lemma_healthy_indices(states[0]);
    assert(healthy.no_duplicates());
    lemma_distinct_members(results, healthy);
}

} // verus!
