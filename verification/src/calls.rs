//! What each call does: the laws over the functions that are called, with the arguments that they
//! are given and the results that they give back.
use crate::binary64::Binary64;
use crate::config::{
    override_path, white_space, KvCentricConfig, KvCentricOverrides, OverrideFile,
};
use crate::cost::TtftEstimate;
use crate::formulas::{
    in_range, is_whole, law_compute_formula, law_compute_in_whole_milliseconds,
    law_estimate_in_whole_milliseconds, law_estimate_takes_the_cheaper_option,
    law_isolated_near_formula, law_l3_read_formula, law_l3_read_in_whole_milliseconds,
    law_l3_read_near_formula, law_serialized_near_formula, whole_compute,
};
use crate::laws::{
    law_blank_names_no_file, law_named_file_is_the_text, law_overrides_replace_what_they_hold,
    law_selection_reserves_once, law_selects_a_healthy_worker, law_variable_names_the_file,
    lemma_batch_is_a_number, lemma_isolated_is_a_number, retuned,
};
use crate::nearest::{gap, is_nearest, law_larger, law_natural, law_order, law_product, law_sum};
use crate::order::{
    lemma_natural_positive, lemma_of_natural, lemma_order_of_values, lemma_product_not_negative,
    lemma_sum_not_negative,
};
use crate::overlap::{
    cached_blocks, can_identify, can_match, healthy_urls, prefix_scores, request_hashes, CacheModel,
    KvEventMonitor,
};
use crate::policy::{cheapest, least_loaded, KvCentricPolicy, SelectWorkerInfo};
use crate::requests::{
    counts, is_first_entry, is_first_healthy, is_first_least_loaded, law_cache_model_is_the_lookup,
    law_entry_of_a_model, law_healthy_indices, law_learned_block_size_comes_first, law_least_cost,
    law_least_load, law_reservation, law_scores_are_the_matches, law_selects_first_least_loaded,
    law_selects_first_least_time, law_what_a_request_is_given, law_when_caches_are_looked_up,
};
use crate::rounding::units;
use crate::workers::{
    get_healthy_worker_indices, healthy_indices, lemma_healthy_indices, WorkerState, WorkerType,
};
use kv_index::PositionalIndexer;
use std::sync::Arc;
use vstd::arithmetic::power2::pow2;
use vstd::prelude::*;

verus! {

// ---- Numbers ----

/// Adding and multiplying give the nearest number to the exact result, wherever that is finite.
pub proof fn law_plus_and_times(a: Binary64, b: Binary64, sum: Binary64, product: Binary64)
    requires
        call_ensures(Binary64::plus, (a, b), sum),
        call_ensures(Binary64::times, (a, b), product),
        a.is_finite(),
        b.is_finite(),
    ensures
        !sum.is_nan(),
        !product.is_nan(),
        sum.is_finite() ==> is_nearest(a.value() + b.value(), 1, sum),
        product.is_finite() ==> is_nearest(a.value() * b.value(), pow2(1074), product),
        product.negative() <==> a.negative() != b.negative(),
        a.value() + b.value() != 0 ==> (sum.negative() <==> a.value() + b.value() < 0),
{
    law_sum(a, b);
    law_product(a, b);
}

/// Comparing goes by the values, the larger of two is below neither, and only what is no number is
/// told to be none.
pub proof fn law_comparisons(a: Binary64, b: Binary64, less: bool, larger: Binary64, none: bool)
    requires
        call_ensures(Binary64::less_than, (a, b), less),
        call_ensures(Binary64::max, (a, b), larger),
        call_ensures(Binary64::not_a_number, (a,), none),
    ensures
        none <==> a.bits % 0x8000_0000_0000_0000 > 0x7ff0_0000_0000_0000,
        a.is_finite() && b.is_finite() ==> (less <==> a.value() < b.value()),
        a.is_nan() || b.is_nan() ==> !less,
        larger == if a.is_nan() || less {
            b
        } else {
            a
        },
{
    law_order(a, b);
    law_larger(a, b);
}

/// A count becomes the nearest number.
pub proof fn law_from_usize(n: usize, r: Binary64)
    requires
        call_ensures(Binary64::from_usize, (n,), r),
    ensures
        !r.negative(),
        r.is_finite() ==> is_nearest(n * pow2(1074), 1, r),
{
    law_natural(n as nat);
}

// ---- Overrides ----

/// Applying overrides replaces what they hold and leaves the rest as it was.
pub proof fn law_apply_overrides(config: &mut KvCentricConfig, o: KvCentricOverrides)
    requires
        call_ensures(KvCentricConfig::apply_overrides, (config, &o), ()),
    ensures
        retuned(*old(config), o, *final(config)),
{
    law_overrides_replace_what_they_hold(*old(config), o);
}

/// Applying a file replaces what its overrides hold and leaves the rest as it was before the call;
/// a file without overrides is not applied and changes nothing.
pub proof fn law_apply_overrides_from_file(
    config: &mut KvCentricConfig,
    file: OverrideFile,
    applied: bool,
)
    requires
        call_ensures(KvCentricConfig::apply_overrides_from_file, (config, &file), applied),
    ensures
        applied <==> file is Overrides,
        file matches OverrideFile::Overrides(o) ==> retuned(*old(config), o, *final(config)),
        !applied ==> *final(config) == *old(config),
{
    if let OverrideFile::Overrides(o) = file {
        law_overrides_replace_what_they_hold(*old(config), o);
    }
}

/// The variable makes the file count where it holds anything but white space, and not else.
pub proof fn law_apply_env_overrides(
    config: &mut KvCentricConfig,
    var: Option<&str>,
    file: OverrideFile,
    applied: bool,
)
    requires
        call_ensures(KvCentricConfig::apply_env_overrides, (config, var, &file), applied),
    ensures
        applied <==> file is Overrides && var is Some && exists|i: int|
            0 <= i < var->0@.len() && !white_space(#[trigger] var->0@[i]),
        applied ==> retuned(*old(config), file->Overrides_0, *final(config)),
        !applied ==> *final(config) == *old(config),
{
    if let Some(text) = var {
        law_variable_names_the_file(*old(config), Some(text@), file);
        law_blank_names_no_file(text@);
    }
    law_variable_names_the_file(*old(config), None, file);
}

/// The path is the text between its first and its last character that is not white space.
pub proof fn law_override_path(text: &str, r: Option<&str>, i: int, j: int)
    requires
        call_ensures(override_path, (Some(text),), r),
        0 <= i < j <= text@.len(),
        forall|k: int| 0 <= k < i ==> white_space(#[trigger] text@[k]),
        forall|k: int| j <= k < text@.len() ==> white_space(#[trigger] text@[k]),
        !white_space(text@[i]),
        !white_space(text@[j - 1]),
    ensures
        r is Some,
        r->0@ == text@.subrange(i, j),
{
    law_named_file_is_the_text(text@, i, j);
}

/// Without a value, or with one of white space alone, there is no path.
pub proof fn law_no_override_path(var: Option<&str>, r: Option<&str>)
    requires
        call_ensures(override_path, (var,), r),
        var is None || forall|i: int| 0 <= i < var->0@.len() ==> white_space(#[trigger] var->0@[i]),
    ensures
        r is None,
{
    if let Some(text) = var {
        law_blank_names_no_file(text@);
    }
}

// ---- Costs ----

/// The compute time goes by the policy's own coefficients: it is the larger of overhead + slope*n +
/// quad*n*n and load overhead + slope*c*n, each step rounded.
pub proof fn law_t_compute(policy: KvCentricPolicy, c: usize, n: usize, r: Binary64)
    requires
        call_ensures(KvCentricPolicy::t_compute, (&policy, c, n), r),
    ensures
        ({
            let config = policy.config;
            let tokens = Binary64::of_natural(n as nat);
            let load = Binary64::of_natural(if c == 0 {
                1
            } else {
                c as nat
            });
            let isolated = config.compute_overhead_ms.sum(
                config.compute_slope_ms.product(tokens),
            ).sum(config.compute_quad_ms.product(tokens).product(tokens));
            let serialized = config.load_overhead_ms.sum(
                config.compute_slope_ms.product(load).product(tokens),
            );
            &&& r == isolated || r == serialized
            &&& !r.lt(isolated) && !r.lt(serialized)
            &&& r.is_nan() ==> isolated.is_nan() && serialized.is_nan()
        }),
{
    law_compute_formula(policy.config, c as nat, n as nat);
}

/// A number of milliseconds, not below zero.
pub open spec fn is_time(x: Binary64) -> bool {
    x.is_finite() && x.value() >= 0
}

/// To within one part in 2^48, and a few of the smallest units for each token, the compute time is
/// the larger of the two formulas' exact values, in the policy's own coefficients.
pub proof fn law_t_compute_near_formula(policy: KvCentricPolicy, c: usize, n: usize, r: Binary64)
    requires
        call_ensures(KvCentricPolicy::t_compute, (&policy, c, n), r),
        is_time(policy.config.compute_overhead_ms),
        is_time(policy.config.compute_slope_ms),
        is_time(policy.config.compute_quad_ms),
        is_time(policy.config.load_overhead_ms),
        is_time(policy.config.l3_read_overhead_ms),
        is_time(policy.config.l3_read_per_token_ms),
        c > 0,
        n > 0,
        r.is_finite(),
    ensures
        ({
            let config = policy.config;
            let slope = config.compute_slope_ms.value();
            let alone = config.compute_overhead_ms.value() + slope * n
                + config.compute_quad_ms.value() * n * n;
            let shared = config.load_overhead_ms.value() + slope * c * n;
            let exact = if alone < shared {
                shared
            } else {
                alone
            };
            0x1_0000_0000_0000 * gap(r.value(), exact) <= exact + 0x1_0000_0000_0000 * (8 * n + 9)
        }),
{
    let config: KvCentricConfig = policy.config;
    let zero: Binary64 = Binary64 { bits: 0 };
    assert(units(0) == 0);
    assert(zero.is_finite() && zero.value() == 0);
    lemma_order_of_values(config.compute_overhead_ms, zero);
    lemma_order_of_values(config.compute_slope_ms, zero);
    lemma_order_of_values(config.compute_quad_ms, zero);
    lemma_order_of_values(config.load_overhead_ms, zero);
    lemma_order_of_values(config.l3_read_overhead_ms, zero);
    lemma_order_of_values(config.l3_read_per_token_ms, zero);
    let (isolated, serialized): (Binary64, Binary64) = (
        config.isolated_ms(n as nat),
        config.serialized_ms(c as nat, n as nat),
    );
    lemma_isolated_is_a_number(config, n as nat);
    lemma_batch_is_a_number(config, c as nat, n as nat);
    law_compute_formula(config, c as nat, n as nat);
    law_larger(isolated, serialized);
    law_order(isolated, serialized);
    assert(serialized.rank() >= 0) by {
        let (f, t): (Binary64, Binary64) = (
            Binary64::of_natural(c as nat),
            Binary64::of_natural(n as nat),
        );
        let part: Binary64 = config.compute_slope_ms.product(f);
        lemma_of_natural(c as nat, c as nat);
        lemma_of_natural(n as nat, n as nat);
        lemma_natural_positive(n as nat);
        lemma_product_not_negative(config.compute_slope_ms, f);
        lemma_product_not_negative(part, t);
        lemma_sum_not_negative(config.load_overhead_ms, part.product(t));
    }
    law_isolated_near_formula(config, n as nat);
    law_serialized_near_formula(config, c as nat, n as nat);
}

/// In whole milliseconds the compute time is the integer that the formula gives.
pub proof fn law_t_compute_in_whole_milliseconds(
    policy: KvCentricPolicy,
    c: usize,
    n: usize,
    r: Binary64,
    o: nat,
    s: nat,
    q: nat,
    l: nat,
)
    requires
        call_ensures(KvCentricPolicy::t_compute, (&policy, c, n), r),
        is_whole(policy.config.compute_overhead_ms, o),
        is_whole(policy.config.compute_slope_ms, s),
        is_whole(policy.config.compute_quad_ms, q),
        is_whole(policy.config.load_overhead_ms, l),
        c >= 1,
        in_range(o, s, q, l, c as nat, n as nat),
    ensures
        r.value() == whole_compute(o, s, q, l, c as nat, n as nat) * pow2(1074),
{
    law_compute_in_whole_milliseconds(policy.config, o, s, q, l, c as nat, n as nat);
}

/// The read time goes by the policy's own coefficients: overhead + time per token * n, each step
/// rounded, and nothing for no tokens.
pub proof fn law_t_l3_read(policy: KvCentricPolicy, n: usize, r: Binary64)
    requires
        call_ensures(KvCentricPolicy::t_l3_read, (&policy, n), r),
    ensures
        n == 0 ==> r.bits == 0,
        n > 0 ==> r == policy.config.l3_read_overhead_ms.sum(
            policy.config.l3_read_per_token_ms.product(Binary64::of_natural(n as nat)),
        ),
{
    law_l3_read_formula(policy.config, n as nat);
}

/// To within one part in 2^48, and three of the smallest units, the read time is the exact value of
/// overhead + time per token * n, in the policy's own coefficients.
pub proof fn law_t_l3_read_near_formula(policy: KvCentricPolicy, n: usize, r: Binary64)
    requires
        call_ensures(KvCentricPolicy::t_l3_read, (&policy, n), r),
        is_time(policy.config.l3_read_overhead_ms),
        is_time(policy.config.l3_read_per_token_ms),
        n > 0,
        r.is_finite(),
    ensures
        ({
            let exact = policy.config.l3_read_overhead_ms.value()
                + policy.config.l3_read_per_token_ms.value() * n;
            0x1_0000_0000_0000 * gap(r.value(), exact) <= exact + 0x1_0000_0000_0000 * 3
        }),
{
    law_l3_read_near_formula(policy.config, n as nat);
}

/// In whole milliseconds the read time is the integer that the formula gives.
pub proof fn law_t_l3_read_in_whole_milliseconds(
    policy: KvCentricPolicy,
    n: usize,
    r: Binary64,
    o: nat,
    p: nat,
)
    requires
        call_ensures(KvCentricPolicy::t_l3_read, (&policy, n), r),
        is_whole(policy.config.l3_read_overhead_ms, o),
        is_whole(policy.config.l3_read_per_token_ms, p),
        0 < n <= 0x20_0000_0000_0000,
        o + p * n <= 0x20_0000_0000_0000,
    ensures
        r.value() == (o + p * n) * pow2(1074),
{
    law_l3_read_in_whole_milliseconds(policy.config, o, p, n as nat);
}

/// The estimate, against the compute and read times of the same policy: with `alone` for all that
/// the worker has not cached, and `compute` and `transfer` for a pull of what the best prefix has
/// beyond the worker's. The pull is taken exactly where that prefix is ahead by more than the
/// threshold and the pull is cheaper.
pub proof fn law_estimate_ttft(
    policy: KvCentricPolicy,
    prompt: usize,
    local: u32,
    best: u32,
    depth: usize,
    block_size: usize,
    e: TtftEstimate,
    rest: usize,
    rest_after_pull: usize,
    pulled: usize,
    alone: Binary64,
    compute: Binary64,
    transfer: Binary64,
)
    requires
        depth < usize::MAX,
        local * block_size <= usize::MAX,
        best > local + policy.config.balancing_threshold ==> best * block_size <= usize::MAX,
        call_ensures(
            KvCentricPolicy::estimate_ttft,
            (&policy, prompt, local, best, depth, block_size),
            e,
        ),
        rest == if prompt > local * block_size {
            prompt - local * block_size
        } else {
            0
        },
        rest_after_pull == if prompt > best * block_size {
            prompt - best * block_size
        } else {
            0
        },
        pulled == if best > local + policy.config.balancing_threshold {
            (best - local) * block_size
        } else {
            0
        },
        call_ensures(KvCentricPolicy::t_compute, (&policy, (depth + 1) as usize, rest), alone),
        call_ensures(
            KvCentricPolicy::t_compute,
            (&policy, (depth + 1) as usize, rest_after_pull),
            compute,
        ),
        call_ensures(KvCentricPolicy::t_l3_read, (&policy, pulled), transfer),
    ensures
        e.concurrency == depth + 1,
        e.local_cached_blocks == local,
        ({
            if best > local + policy.config.balancing_threshold && compute.sum(transfer).lt(alone) {
                &&& e.ttft_ms == compute.sum(transfer)
                &&& e.compute_ms == compute
                &&& e.transfer_ms == transfer
                &&& e.pulled_tokens == pulled
                &&& e.new_tokens == rest_after_pull
            } else {
                &&& e.ttft_ms == alone
                &&& e.compute_ms == alone
                &&& e.transfer_ms.bits == 0
                &&& e.pulled_tokens == 0
                &&& e.new_tokens == rest
            }
        }),
{
    law_estimate_takes_the_cheaper_option(
        policy.config,
        prompt as nat,
        local,
        best,
        depth as nat,
        block_size as nat,
    );
}

/// In whole milliseconds the estimate is the lesser of the two options' integers.
pub proof fn law_estimate_ttft_in_whole_milliseconds(
    policy: KvCentricPolicy,
    prompt: usize,
    local: u32,
    best: u32,
    depth: usize,
    block_size: usize,
    e: TtftEstimate,
    o: nat,
    s: nat,
    q: nat,
    l: nat,
    r: nat,
    p: nat,
)
    requires
        call_ensures(
            KvCentricPolicy::estimate_ttft,
            (&policy, prompt, local, best, depth, block_size),
            e,
        ),
        is_whole(policy.config.compute_overhead_ms, o),
        is_whole(policy.config.compute_slope_ms, s),
        is_whole(policy.config.compute_quad_ms, q),
        is_whole(policy.config.load_overhead_ms, l),
        is_whole(policy.config.l3_read_overhead_ms, r),
        is_whole(policy.config.l3_read_per_token_ms, p),
        local < best,
        block_size > 0,
        best * block_size <= prompt,
        depth < usize::MAX,
        in_range(o, s, q, l, depth as nat + 1, (prompt - local * block_size) as nat),
        in_range(o, s, q, l, depth as nat + 1, (prompt - best * block_size) as nat),
        (best - local) * block_size <= 0x20_0000_0000_0000,
        whole_compute(o, s, q, l, depth as nat + 1, (prompt - best * block_size) as nat) + r + p * ((
        best - local) * block_size) <= 0x20_0000_0000_0000,
    ensures
        ({
            let alone = whole_compute(
                o,
                s,
                q,
                l,
                depth as nat + 1,
                (prompt - local * block_size) as nat,
            );
            let pull = whole_compute(
                o,
                s,
                q,
                l,
                depth as nat + 1,
                (prompt - best * block_size) as nat,
            ) + r + p * ((best - local) * block_size);
            e.ttft_ms.value() == (if best > local + policy.config.balancing_threshold && pull
                < alone {
                pull
            } else {
                alone as int
            }) * pow2(1074)
        }),
{
    law_estimate_in_whole_milliseconds(
        policy.config,
        o,
        s,
        q,
        l,
        r,
        p,
        prompt as nat,
        local,
        best,
        depth as nat,
        block_size as nat,
    );
    assert((best - local) * block_size > 0) by (nonlinear_arith)
        requires
            local < best,
            block_size > 0,
    ;
}

// ---- Caches ----

/// The monitor answers for a model from the first entry under its id, and has no answer where there
/// is none.
pub proof fn law_monitor_answers(
    monitor: KvEventMonitor,
    model_id: String,
    indexer: Option<&Arc<PositionalIndexer>>,
    block_size: Option<usize>,
    k: int,
)
    requires
        call_ensures(KvEventMonitor::get_indexer, (&monitor, &model_id), indexer),
        call_ensures(KvEventMonitor::block_size, (&monitor, &model_id), block_size),
    ensures
        is_first_entry(monitor.models@, model_id@, k) ==> indexer == Some(
            &monitor.models@[k].indexer,
        ) && block_size == monitor.models@[k].block_size,
        (forall|i: int|
            0 <= i < monitor.models@.len() ==> (#[trigger] monitor.models@[i]).model_id@
                != model_id@) ==> indexer is None && block_size is None,
{
    law_entry_of_a_model(monitor.models@, model_id@, k);
}

/// The scores are, for each healthy worker in turn, what one look-up of the prompt's block hashes
/// matched under the worker's own URL.
pub proof fn law_prefix_scores(
    indexer: PositionalIndexer,
    tokens: &[u32],
    block_size: usize,
    workers: &[WorkerState],
    r: Vec<Option<u32>>,
)
    requires
        call_ensures(prefix_scores, (&indexer, tokens, block_size, workers), r),
    ensures
        r@.len() == healthy_indices(workers@).len(),
        exists|matched: Map<u32, u32>| #[trigger]
            can_match(indexer, request_hashes(tokens@, block_size as nat), false, matched)
                && forall|p: int|
                0 <= p < r@.len() ==> counts(
                    indexer,
                    workers@[healthy_indices(workers@)[p] as int].url@,
                    matched,
                    if (#[trigger] r@[p]) is Some {
                        r@[p]->0
                    } else {
                        0
                    },
                ),
{
    let urls: Seq<Seq<char>> = healthy_urls(workers@);
    let cached: Seq<u32> = cached_blocks(r@);
    law_scores_are_the_matches(indexer, tokens@, block_size as nat, urls, r@);
    let (hashes, matched): (Seq<u64>, Map<u32, u32>) = choose|
        hashes: Seq<u64>,
        matched: Map<u32, u32>,
    |
        #![trigger can_match(indexer, hashes, false, matched)]
        {
            &&& can_match(indexer, hashes, false, matched)
            &&& hashes == request_hashes(tokens@, block_size as nat)
            &&& forall|i: int|
                0 <= i < urls.len() ==> counts(indexer, urls[i], matched, #[trigger] cached[i])
            &&& forall|i: int|
                0 <= i < urls.len() && (#[trigger] r@[i]) is Some ==> exists|id: u32|
                    #[trigger] matched.contains_key(id) && r@[i] == Some(matched[id])
                        && can_identify(indexer, urls[i], Some(id))
        };
    assert forall|p: int| 0 <= p < r@.len() implies counts(
        indexer,
        workers@[healthy_indices(workers@)[p] as int].url@,
        matched,
        if (#[trigger] r@[p]) is Some {
            r@[p]->0
        } else {
            0
        },
    ) by {
        assert(counts(indexer, urls[p], matched, cached[p]));
        assert(urls[p] == workers@[healthy_indices(workers@)[p] as int].url@);
    }
}

/// A cache model holds the scores, with no blocks for a worker without one, and the most of them.
pub proof fn law_from_scores(
    prompt_tokens: usize,
    block_size: usize,
    scores: Vec<Option<u32>>,
    r: CacheModel,
)
    requires
        call_ensures(CacheModel::from_scores, (prompt_tokens, block_size, &scores), r),
    ensures
        r.prompt_tokens == prompt_tokens,
        r.block_size == block_size,
        r.local_cached@.len() == scores@.len(),
        forall|i: int|
            0 <= i < scores@.len() ==> (#[trigger] r.local_cached@[i]) == if scores@[i] is Some {
                scores@[i]->0
            } else {
                0
            },
        forall|i: int|
            0 <= i < scores@.len() ==> (#[trigger] r.local_cached@[i]) <= r.best_cached_blocks,
        r.best_cached_blocks > 0 ==> exists|i: int|
            0 <= i < scores@.len() && (#[trigger] r.local_cached@[i]) == r.best_cached_blocks,
{
}

/// What is looked up for a request: nothing without tokens, a monitor, or an entry for the model of
/// the first healthy worker; else, by the block size learned for that model, or the configured one
/// where none is, the blocks of the prompt that the model's index matches for each healthy worker,
/// and the most of them.
pub proof fn law_cache_model(
    policy: KvCentricPolicy,
    workers: &[WorkerState],
    info: SelectWorkerInfo,
    r: Option<CacheModel>,
    h: int,
    k: int,
)
    requires
        workers@.len() <= usize::MAX,
        is_first_healthy(workers@, h),
        call_ensures(KvCentricPolicy::cache_model, (&policy, workers, &info), r),
    ensures
        info.tokens is None || info.tokens->0@.len() == 0 || policy.kv_monitor is None ==> r is None,
        policy.kv_monitor matches Some(monitor) ==> ((forall|i: int|
            0 <= i < monitor.models@.len() ==> (#[trigger] monitor.models@[i]).model_id@
                != workers@[h].model_id@) ==> r is None),
        policy.kv_monitor is Some && is_first_entry(
            policy.kv_monitor->0.models@,
            workers@[h].model_id@,
            k,
        ) && info.tokens is Some && info.tokens->0@.len() > 0 ==> {
            let entry = policy.kv_monitor->0.models@[k];
            &&& r matches Some(cm)
            &&& cm.prompt_tokens == info.tokens->0@.len()
            &&& entry.block_size is Some ==> cm.block_size == entry.block_size->0
            &&& entry.block_size is None ==> cm.block_size == policy.config.block_size
            &&& cm.local_cached@.len() == healthy_indices(workers@).len()
            &&& exists|matched: Map<u32, u32>| #[trigger]
                can_match(
                    *entry.indexer,
                    request_hashes(info.tokens->0@, cm.block_size as nat),
                    false,
                    matched,
                ) && forall|p: int|
                    0 <= p < healthy_indices(workers@).len() ==> counts(
                        *entry.indexer,
                        workers@[healthy_indices(workers@)[p] as int].url@,
                        matched,
                        #[trigger] cm.local_cached@[p],
                    )
            &&& forall|p: int|
                0 <= p < cm.local_cached@.len() ==> (#[trigger] cm.local_cached@[p])
                    <= cm.best_cached_blocks
            &&& exists|p: int|
                0 <= p < cm.local_cached@.len() && (#[trigger] cm.local_cached@[p])
                    == cm.best_cached_blocks
        },
{
    law_when_caches_are_looked_up(policy, workers@, info, r, h);
    if policy.kv_monitor is Some && is_first_entry(
        policy.kv_monitor->0.models@,
        workers@[h].model_id@,
        k,
    ) && info.tokens is Some && info.tokens->0@.len() > 0 {
        law_cache_model_is_the_lookup(policy, workers@, info, r->0, h, k);
        law_learned_block_size_comes_first(policy, workers@, info, r->0, h, k);
    }
}

/// Two policies with the same monitor, that differ in what is configured, look up by the same block
/// size for a model of which one has been learned.
pub proof fn law_same_block_size_once_learned(
    policy1: KvCentricPolicy,
    policy2: KvCentricPolicy,
    workers: &[WorkerState],
    info: SelectWorkerInfo,
    r1: CacheModel,
    r2: CacheModel,
    h: int,
    k: int,
)
    requires
        workers@.len() <= usize::MAX,
        is_first_healthy(workers@, h),
        policy1.kv_monitor == policy2.kv_monitor,
        policy1.kv_monitor is Some,
        is_first_entry(policy1.kv_monitor->0.models@, workers@[h].model_id@, k),
        policy1.kv_monitor->0.models@[k].block_size is Some,
        call_ensures(KvCentricPolicy::cache_model, (&policy1, workers, &info), Some(r1)),
        call_ensures(KvCentricPolicy::cache_model, (&policy2, workers, &info), Some(r2)),
    ensures
        r1.block_size == r2.block_size,
        r1.prompt_tokens == r2.prompt_tokens,
        r1.local_cached@.len() == r2.local_cached@.len(),
{
    law_learned_block_size_comes_first(policy1, workers@, info, r1, h, k);
    law_learned_block_size_comes_first(policy2, workers@, info, r2, h, k);
    law_cache_model_is_the_lookup(policy1, workers@, info, r1, h, k);
    law_cache_model_is_the_lookup(policy2, workers@, info, r2, h, k);
}

// ---- Selection ----

/// The healthy workers are listed, all of them and no others, in increasing order.
pub proof fn law_get_healthy_worker_indices(workers: &[WorkerState], r: Vec<usize>)
    requires
        workers@.len() <= usize::MAX,
        call_ensures(get_healthy_worker_indices, (workers,), r),
    ensures
        forall|i: usize| #[trigger]
            r@.contains(i) <==> i < workers@.len() && workers@[i as int].healthy,
        forall|a: int, b: int| 0 <= a < b < r@.len() ==> (#[trigger] r@[a]) < #[trigger] r@[b],
{
    law_healthy_indices(workers@);
}

/// The least cost, and the first of several.
pub proof fn law_cheapest(costs: &[Binary64], p: usize)
    requires
        call_ensures(cheapest, (costs,), p),
    ensures
        p < costs@.len(),
        forall|i: int| 0 <= i < costs@.len() ==> !(#[trigger] costs@[i]).lt(costs@[p as int]),
        forall|i: int|
            0 <= i < p && !(#[trigger] costs@[i]).is_nan() ==> costs@[p as int].lt(costs@[i]),
        costs@[p as int].is_nan() ==> p == 0 && forall|i: int|
            0 <= i < costs@.len() ==> (#[trigger] costs@[i]).is_nan(),
{
    law_least_cost(costs@, p as int);
}

/// The least load, and the first of several.
pub proof fn law_least_loaded(loads: &[usize], p: usize)
    requires
        call_ensures(least_loaded, (loads,), p),
    ensures
        p < loads@.len(),
        forall|i: int| 0 <= i < loads@.len() ==> loads@[p as int] <= #[trigger] loads@[i],
        forall|i: int| 0 <= i < p ==> loads@[p as int] < #[trigger] loads@[i],
{
    law_least_load(loads@, p as int);
}

/// A new policy has the configuration that it is given, and no monitor; setting a monitor, or
/// taking it away, leaves the configuration.
pub proof fn law_policy_holds_what_it_is_given(
    config: KvCentricConfig,
    created: KvCentricPolicy,
    policy: &mut KvCentricPolicy,
    monitor: Option<Arc<KvEventMonitor>>,
)
    requires
        call_ensures(KvCentricPolicy::with_config, (config,), created),
        call_ensures(KvCentricPolicy::set_kv_event_monitor, (policy, monitor), ()),
    ensures
        created.config == config,
        created.kv_monitor is None,
        final(policy).kv_monitor == monitor,
        final(policy).config == old(policy).config,
{
}

/// The name is that of configurations, and the text of a request is not asked for.
pub proof fn law_name_and_needs(policy: KvCentricPolicy, name: &str, needs: bool)
    requires
        call_ensures(KvCentricPolicy::name, (&policy,), name),
        call_ensures(KvCentricPolicy::needs_request_text, (&policy,), needs),
    ensures
        name@ == "kv_centric"@,
        !needs,
{
}

/// What a reservation does: one request more on a worker that performs prefill, none on one that
/// only decodes, and nothing else.
pub open spec fn is_reserved(before: Seq<WorkerState>, i: int, after: Seq<WorkerState>) -> bool {
    &&& after.len() == before.len()
    &&& forall|j: int| 0 <= j < before.len() && j != i ==> (#[trigger] after[j]) == before[j]
    &&& after[i].url == before[i].url
    &&& after[i].model_id == before[i].model_id
    &&& after[i].worker_type == before[i].worker_type
    &&& after[i].healthy == before[i].healthy
    &&& after[i].prefill_inflight == before[i].prefill_inflight + (if before[i].worker_type
        == WorkerType::Decode {
        0int
    } else {
        1
    })
}

/// Reserving a slot.
pub proof fn law_reserve_compute_slot(
    policy: KvCentricPolicy,
    workers: &mut [WorkerState],
    idx: usize,
)
    requires
        idx < old(workers)@.len(),
        old(workers)@[idx as int].worker_type == WorkerType::Decode || old(
            workers,
        )@[idx as int].prefill_inflight < usize::MAX,
        call_ensures(KvCentricPolicy::reserve_compute_slot, (&policy, workers, idx), ()),
    ensures
        is_reserved(old(workers)@, idx as int, final(workers)@),
{
    law_reservation(old(workers)@, idx);
}

/// Selecting by a model of the caches, or without one: the first worker with the least estimated
/// time, or the first with the fewest requests in flight, gets the reservation. The only candidate
/// gets it in any case, and without a candidate nothing changes.
pub proof fn law_select_with(
    policy: KvCentricPolicy,
    workers: &mut [WorkerState],
    cache: Option<CacheModel>,
    r: Option<usize>,
)
    requires
        old(workers)@.len() <= usize::MAX,
        forall|i: int|
            0 <= i < old(workers)@.len() ==> (#[trigger] old(workers)@[i]).prefill_inflight
                < usize::MAX,
        call_ensures(KvCentricPolicy::select_with, (&policy, workers, &cache), r),
    ensures
        r is None <==> forall|i: int|
            0 <= i < old(workers)@.len() ==> !(#[trigger] old(workers)@[i]).healthy,
        r is None ==> final(workers)@ == old(workers)@,
        r matches Some(i) ==> i < old(workers)@.len() && old(workers)@[i as int].healthy
            && is_reserved(old(workers)@, i as int, final(workers)@),
        r is Some && cache is None ==> is_first_least_loaded(old(workers)@, r->0 as int),
        healthy_indices(old(workers)@).len() > 1 && cache is Some ==> exists|p: int| #[trigger]
            policy.is_first_least_time(old(workers)@, cache->0, p) && r == Some(
                healthy_indices(old(workers)@)[p],
            ),
{
    let before: Seq<WorkerState> = old(workers)@;
    let after: Seq<WorkerState> = final(workers)@;
    let healthy: Seq<usize> = healthy_indices(before);
    lemma_healthy_indices(before);
    law_selects_a_healthy_worker(policy, before, cache, r, after);
    law_selection_reserves_once(policy, before, cache, r, after);
    if cache is None {
        law_selects_first_least_loaded(policy, before, r, after);
    } else if healthy.len() > 1 {
        law_selects_first_least_time(policy, before, cache->0, r, after);
    }
}

/// Selecting for a request. Without tokens, without a monitor, or where the monitor has no entry
/// for the model of the first healthy worker, the first of the least loaded workers is selected.
/// Else, with more than one healthy worker, it is the first of those with the least estimated time,
/// by what is looked up for the request. The worker selected gets the reservation.
pub proof fn law_select_worker(
    policy: KvCentricPolicy,
    workers: &mut [WorkerState],
    info: SelectWorkerInfo,
    r: Option<usize>,
    h: int,
)
    requires
        old(workers)@.len() <= usize::MAX,
        forall|i: int|
            0 <= i < old(workers)@.len() ==> (#[trigger] old(workers)@[i]).prefill_inflight
                < usize::MAX,
        is_first_healthy(old(workers)@, h),
        call_ensures(KvCentricPolicy::select_worker, (&policy, workers, &info), r),
    ensures
        r matches Some(i) && i < old(workers)@.len() && old(workers)@[i as int].healthy
            && is_reserved(old(workers)@, i as int, final(workers)@),
        ({
            let known = policy.kv_monitor matches Some(monitor) && exists|k: int| #[trigger]
                is_first_entry(monitor.models@, old(workers)@[h].model_id@, k);
            if healthy_indices(old(workers)@).len() > 1 && info.tokens is Some
                && info.tokens->0@.len() > 0 && known {
                exists|cm: CacheModel, p: int|
                    #![trigger policy.is_first_least_time(old(workers)@, cm, p)]
                    policy.can_model(old(workers)@, info, Some(cm)) && policy.is_first_least_time(
                        old(workers)@,
                        cm,
                        p,
                    ) && r == Some(healthy_indices(old(workers)@)[p])
            } else {
                is_first_least_loaded(old(workers)@, r->0 as int)
            }
        }),
{
    let before: Seq<WorkerState> = old(workers)@;
    let after: Seq<WorkerState> = final(workers)@;
    law_what_a_request_is_given(policy, before, info, r, after, h);
    lemma_healthy_indices(before);
    let cache: Option<CacheModel> = if healthy_indices(before).len() <= 1 {
        None
    } else {
        choose|cache: Option<CacheModel>| #[trigger]
            policy.can_model(before, info, cache) && policy.selects(before, cache, r, after)
    };
    law_selects_a_healthy_worker(policy, before, cache, r, after);
    law_selection_reserves_once(policy, before, cache, r, after);
}

/// Where no worker is healthy, none is selected for a request and nothing changes.
pub proof fn law_select_worker_without_candidates(
    policy: KvCentricPolicy,
    workers: &mut [WorkerState],
    info: SelectWorkerInfo,
    r: Option<usize>,
)
    requires
        old(workers)@.len() <= usize::MAX,
        forall|i: int| 0 <= i < old(workers)@.len() ==> !(#[trigger] old(workers)@[i]).healthy,
        call_ensures(KvCentricPolicy::select_worker, (&policy, workers, &info), r),
    ensures
        r is None,
        final(workers)@ == old(workers)@,
{
    let healthy: Seq<usize> = healthy_indices(old(workers)@);
    lemma_healthy_indices(old(workers)@);
    if healthy.len() > 0 {
        assert(old(workers)@[healthy[0] as int].healthy);
    }
}

} // verus!
