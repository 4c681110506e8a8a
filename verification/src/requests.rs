//! What a request gets: what is looked up for it, which worker it is given, what is reserved.
//!
//! The statements are over the workers, the monitor's entries, the index and the configuration as
//! they are handed in.
use crate::binary64::Binary64;
use crate::laws::reserved_for;
use crate::overlap::{
    cached_blocks, can_identify, can_match, can_score, content_hash, first_entry, healthy_urls,
    is_largest, matched_for, read_off, read_off_one, request_hashes, CacheModel, ModelIndex,
};
use crate::policy::{
    healthy_loads, is_cheapest, is_least_loaded, with_reservation, KvCentricPolicy,
    SelectWorkerInfo,
};
use crate::workers::{healthy_indices, lemma_healthy_indices, WorkerState, WorkerType};
use kv_index::PositionalIndexer;
use vstd::prelude::*;

verus! {

// ---- Workers ----

/// The healthy indices are those of the healthy workers, all of them and no others, in increasing
/// order.
pub proof fn law_healthy_indices(workers: Seq<WorkerState>)
    requires
        workers.len() <= usize::MAX,
    ensures
        forall|i: usize| #[trigger]
            healthy_indices(workers).contains(i) <==> i < workers.len()
                && workers[i as int].healthy,
        forall|k: int, l: int|
            0 <= k < l < healthy_indices(workers).len() ==> (#[trigger] healthy_indices(workers)[k])
                < #[trigger] healthy_indices(workers)[l],
{
    lemma_healthy_indices(workers);
    assert forall|i: usize| i < workers.len() && workers[i as int].healthy implies #[trigger] healthy_indices(
        workers,
    ).contains(i) by {}
}

/// A reservation on a worker that performs prefill counts one request more there, and a worker
/// that only decodes is left as it is. Nothing else changes, on that worker or on any other.
pub proof fn law_reservation(workers: Seq<WorkerState>, idx: usize)
    requires
        idx < workers.len(),
        workers[idx as int].worker_type == WorkerType::Decode || workers[idx as int].prefill_inflight
            < usize::MAX,
    ensures
        with_reservation(workers, idx).len() == workers.len(),
        forall|i: int|
            0 <= i < workers.len() && i != idx ==> (#[trigger] with_reservation(workers, idx)[i])
                == workers[i],
        ({
            let (before, after) = (
                workers[idx as int],
                with_reservation(workers, idx)[idx as int],
            );
            &&& after.url == before.url
            &&& after.model_id == before.model_id
            &&& after.worker_type == before.worker_type
            &&& after.healthy == before.healthy
            &&& before.worker_type == WorkerType::Decode ==> after.prefill_inflight
                == before.prefill_inflight
            &&& before.worker_type != WorkerType::Decode ==> after.prefill_inflight
                == before.prefill_inflight + 1
        }),
{
}

/// The position of the least load: no load is below it, and every load before it is above.
pub proof fn law_least_load(loads: Seq<usize>, p: int)
    requires
        is_least_loaded(loads, p),
    ensures
        0 <= p < loads.len(),
        forall|i: int| 0 <= i < loads.len() ==> loads[p] <= #[trigger] loads[i],
        forall|i: int| 0 <= i < p ==> loads[p] < #[trigger] loads[i],
{
}

/// The position of the least cost: no cost is below it, every cost before it is above or no number,
/// and it is no number itself only where none is, and then the first.
pub proof fn law_least_cost(costs: Seq<Binary64>, p: int)
    requires
        is_cheapest(costs, p),
    ensures
        0 <= p < costs.len(),
        forall|i: int| 0 <= i < costs.len() ==> !(#[trigger] costs[i]).lt(costs[p]),
        forall|i: int|
            0 <= i < p && !(#[trigger] costs[i]).is_nan() ==> costs[p].lt(costs[i]),
        costs[p].is_nan() ==> p == 0 && forall|i: int|
            0 <= i < costs.len() ==> (#[trigger] costs[i]).is_nan(),
{
}

// ---- The caches ----

/// The block hashes of a prompt: one for each block that it fills, of that block's own tokens, and
/// none without a block size. Prompts that share their leading tokens share the hashes of the
/// blocks that those fill.
pub proof fn law_request_hashes(tokens: Seq<u32>, other: Seq<u32>, block_size: nat, shared: nat)
    requires
        shared * block_size <= tokens.len(),
        shared * block_size <= other.len(),
        forall|i: int| 0 <= i < shared * block_size ==> tokens[i] == other[i],
    ensures
        block_size == 0 ==> request_hashes(tokens, block_size).len() == 0,
        block_size > 0 ==> {
            let n = request_hashes(tokens, block_size).len();
            n * block_size <= tokens.len() < (n + 1) * block_size
        },
        forall|i: int|
            0 <= i < request_hashes(tokens, block_size).len() ==> #[trigger] request_hashes(
                tokens,
                block_size,
            )[i] == content_hash(tokens.subrange(i * block_size, i * block_size + block_size)),
        block_size > 0 ==> forall|i: int|
            0 <= i < shared ==> i < request_hashes(tokens, block_size).len() && i < request_hashes(
                other,
                block_size,
            ).len() && #[trigger] request_hashes(tokens, block_size)[i] == request_hashes(
                other,
                block_size,
            )[i],
{
    assert forall|i: int| 0 <= i < request_hashes(tokens, block_size).len() implies #[trigger] request_hashes(
        tokens,
        block_size,
    )[i] == content_hash(tokens.subrange(i * block_size, i * block_size + block_size)) by {
        assert((i + 1) * block_size == i * block_size + block_size) by (nonlinear_arith);
    }
    if block_size > 0 {
        let (t, o, b): (int, int, int) = (
            tokens.len() as int,
            other.len() as int,
            block_size as int,
        );
        assert((t / b) * b <= t < (t / b + 1) * b) by (nonlinear_arith)
            requires
                b > 0,
        ;
        assert(shared <= t / b) by (nonlinear_arith)
            requires
                b > 0,
                shared * b <= t,
        ;
        assert(shared <= o / b) by (nonlinear_arith)
            requires
                b > 0,
                shared * b <= o,
        ;
        assert forall|i: int| 0 <= i < shared implies i < request_hashes(tokens, block_size).len()
            && i < request_hashes(other, block_size).len() && #[trigger] request_hashes(
            tokens,
            block_size,
        )[i] == request_hashes(other, block_size)[i] by {
            assert(0 <= i * b && (i + 1) * b <= shared * b && i * b <= (i + 1) * b) by (nonlinear_arith)
                requires
                    0 <= i < shared,
                    b > 0,
            ;
            assert(tokens.subrange(i * block_size, (i + 1) * block_size) =~= other.subrange(
                i * block_size,
                (i + 1) * block_size,
            ));
        }
    }
}

/// `n` blocks are what the matches say of the worker at `url`: those matched for the id that the
/// index knows it by, and none where it knows no id or has no match for it.
pub open spec fn counts(
    indexer: PositionalIndexer,
    url: Seq<char>,
    matched: Map<u32, u32>,
    n: u32,
) -> bool {
    exists|id: Option<u32>| #[trigger]
        can_identify(indexer, url, id) && if id is Some && matched.contains_key(id->0) {
            n == matched[id->0]
        } else {
            n == 0
        }
}

/// Scores are one look-up's matches for the block hashes of the whole prompt: for each worker
/// those under its own URL, and none is the same as no blocks.
pub proof fn law_scores_are_the_matches(
    indexer: PositionalIndexer,
    tokens: Seq<u32>,
    block_size: nat,
    urls: Seq<Seq<char>>,
    scores: Seq<Option<u32>>,
)
    requires
        can_score(indexer, tokens, block_size, urls, scores),
    ensures
        scores.len() == urls.len(),
        cached_blocks(scores).len() == urls.len(),
        forall|i: int|
            0 <= i < urls.len() ==> #[trigger] cached_blocks(scores)[i] == if scores[i] is Some {
                scores[i]->0
            } else {
                0
            },
        exists|hashes: Seq<u64>, matched: Map<u32, u32>|
            #![trigger can_match(indexer, hashes, false, matched)]
            {
                &&& can_match(indexer, hashes, false, matched)
                &&& hashes == request_hashes(tokens, block_size)
                &&& forall|i: int|
                    0 <= i < urls.len() ==> counts(
                        indexer,
                        urls[i],
                        matched,
                        #[trigger] cached_blocks(scores)[i],
                    )
                &&& forall|i: int|
                    0 <= i < urls.len() && (#[trigger] scores[i]) is Some ==> exists|id: u32|
                        #[trigger] matched.contains_key(id) && scores[i] == Some(matched[id])
                            && can_identify(indexer, urls[i], Some(id))
            },
{
    let hashes: Seq<u64> = request_hashes(tokens, block_size);
    let matched: Map<u32, u32> = choose|matched: Map<u32, u32>| #[trigger]
        can_match(indexer, hashes, false, matched) && read_off(
            indexer,
            urls,
            matched,
            scores,
        );
    assert forall|i: int| 0 <= i < urls.len() implies counts(
        indexer,
        urls[i],
        matched,
        #[trigger] cached_blocks(scores)[i],
    ) by {
        assert(read_off_one(indexer, urls[i], matched, scores[i]));
    }
    assert forall|i: int| 0 <= i < urls.len() && (#[trigger] scores[i]) is Some implies exists|id: u32|
        #[trigger] matched.contains_key(id) && scores[i] == Some(matched[id]) && can_identify(
            indexer,
            urls[i],
            Some(id),
        ) by {
        assert(read_off_one(indexer, urls[i], matched, scores[i]));
        let id: Option<u32> = choose|id: Option<u32>| #[trigger]
            can_identify(indexer, urls[i], id) && scores[i] == matched_for(
                matched,
                id,
            );
        assert(matched.contains_key(id->0));
    }
    assert(can_match(indexer, hashes, false, matched));
}

/// Worker `h` is the first that is healthy.
pub open spec fn is_first_healthy(workers: Seq<WorkerState>, h: int) -> bool {
    &&& 0 <= h < workers.len()
    &&& workers[h].healthy
    &&& forall|i: int| 0 <= i < h ==> !(#[trigger] workers[i]).healthy
}

/// Entry `k` is the first under the model id.
pub open spec fn is_first_entry(models: Seq<ModelIndex>, model_id: Seq<char>, k: int) -> bool {
    &&& 0 <= k < models.len()
    &&& models[k].model_id@ == model_id
    &&& forall|i: int| 0 <= i < k ==> (#[trigger] models[i]).model_id@ != model_id
}

/// The monitor's entry for a model is the first under its id, if there is one.
pub proof fn law_entry_of_a_model(models: Seq<ModelIndex>, model_id: Seq<char>, k: int)
    ensures
        is_first_entry(models, model_id, k) ==> first_entry(models, model_id) == Some(models[k]),
        (forall|i: int| 0 <= i < models.len() ==> (#[trigger] models[i]).model_id@ != model_id)
            ==> first_entry(models, model_id) is None,
        first_entry(models, model_id) is Some ==> exists|i: int| #[trigger]
            is_first_entry(models, model_id, i),
    decreases models.len(),
{
    if models.len() > 0 {
        let rest: Seq<ModelIndex> = models.drop_first();
        if models[0].model_id@ == model_id {
            assert(is_first_entry(models, model_id, 0));
        } else {
            law_entry_of_a_model(rest, model_id, k - 1);
            assert forall|i: int| 0 <= i < rest.len() implies rest[i] == #[trigger] models[i + 1] by {}
            if is_first_entry(models, model_id, k) {
                assert forall|i: int| 0 <= i < k - 1 implies (#[trigger] rest[i]).model_id@
                    != model_id by {
                    assert(rest[i] == models[i + 1]);
                }
                assert(is_first_entry(rest, model_id, k - 1));
            }
            if forall|i: int| 0 <= i < models.len() ==> (#[trigger] models[i]).model_id@ != model_id {
                assert forall|i: int| 0 <= i < rest.len() implies (#[trigger] rest[i]).model_id@
                    != model_id by {
                    assert(rest[i] == models[i + 1]);
                }
            }
            if first_entry(rest, model_id) is Some {
                let j: int = choose|j: int| #[trigger] is_first_entry(rest, model_id, j);
                assert forall|i: int| 0 <= i < j + 1 implies (#[trigger] models[i]).model_id@
                    != model_id by {
                    if i > 0 {
                        assert(rest[i - 1] == models[i]);
                    }
                }
                assert(rest[j] == models[j + 1]);
                assert(is_first_entry(models, model_id, j + 1));
            }
        }
    }
}

/// The first of the healthy indices is that of the first healthy worker.
proof fn lemma_first_healthy(workers: Seq<WorkerState>, h: int)
    requires
        workers.len() <= usize::MAX,
        is_first_healthy(workers, h),
    ensures
        healthy_indices(workers).len() > 0,
        healthy_indices(workers)[0] == h,
{
    let healthy: Seq<usize> = healthy_indices(workers);
    lemma_healthy_indices(workers);
    assert(healthy.contains(h as usize));
    let k: int = choose|k: int| 0 <= k < healthy.len() && healthy[k] == h as usize;
    assert(workers[healthy[0] as int].healthy);
    if k > 0 {
        assert(healthy[0] < healthy[k]);
    }
}

/// The caches are looked up exactly for a prompt with tokens, where there is a monitor and it has
/// an entry for the model of the first healthy worker.
pub proof fn law_when_caches_are_looked_up(
    policy: KvCentricPolicy,
    workers: Seq<WorkerState>,
    info: SelectWorkerInfo,
    cache: Option<CacheModel>,
    h: int,
)
    requires
        workers.len() <= usize::MAX,
        is_first_healthy(workers, h),
        policy.can_model(workers, info, cache),
    ensures
        info.tokens is None ==> cache is None,
        info.tokens is Some && info.tokens->0@.len() == 0 ==> cache is None,
        policy.kv_monitor is None ==> cache is None,
        policy.kv_monitor matches Some(monitor) ==> ((forall|k: int|
            0 <= k < monitor.models@.len() ==> (#[trigger] monitor.models@[k]).model_id@
                != workers[h].model_id@) ==> cache is None),
        (policy.kv_monitor matches Some(monitor) && exists|k: int| #[trigger]
            is_first_entry(monitor.models@, workers[h].model_id@, k)) && info.tokens is Some
            && info.tokens->0@.len() > 0 ==> cache is Some,
{
    lemma_first_healthy(workers, h);
    if let Some(monitor) = policy.kv_monitor {
        let id: Seq<char> = workers[h].model_id@;
        law_entry_of_a_model(monitor.models@, id, 0);
        if exists|k: int| #[trigger] is_first_entry(monitor.models@, id, k) {
            let k: int = choose|k: int| #[trigger] is_first_entry(monitor.models@, id, k);
            law_entry_of_a_model(monitor.models@, id, k);
        }
    }
}

/// The block size is the one learned for the model, whatever is configured; the configured one is
/// used only for a model of which none has been learned.
pub proof fn law_learned_block_size_comes_first(
    policy: KvCentricPolicy,
    workers: Seq<WorkerState>,
    info: SelectWorkerInfo,
    cm: CacheModel,
    h: int,
    k: int,
)
    requires
        workers.len() <= usize::MAX,
        is_first_healthy(workers, h),
        policy.can_model(workers, info, Some(cm)),
        policy.kv_monitor is Some,
        is_first_entry(policy.kv_monitor->0.models@, workers[h].model_id@, k),
    ensures
        ({
            let learned = policy.kv_monitor->0.models@[k].block_size;
            &&& learned is Some ==> cm.block_size == learned->0
            &&& learned is None ==> cm.block_size == policy.config.block_size
        }),
{
    lemma_first_healthy(workers, h);
    law_entry_of_a_model(policy.kv_monitor->0.models@, workers[h].model_id@, k);
}

/// Two policies with one monitor admit the same models of the caches, however they are configured,
/// for a model with a learned block size; and for any model where their block sizes are the same.
pub proof fn law_configuration_and_caches(
    policy1: KvCentricPolicy,
    policy2: KvCentricPolicy,
    workers: Seq<WorkerState>,
    info: SelectWorkerInfo,
    cache: Option<CacheModel>,
    h: int,
    k: int,
)
    requires
        workers.len() <= usize::MAX,
        is_first_healthy(workers, h),
        policy1.kv_monitor == policy2.kv_monitor,
        policy1.kv_monitor is Some,
        is_first_entry(policy1.kv_monitor->0.models@, workers[h].model_id@, k),
        policy1.kv_monitor->0.models@[k].block_size is Some || policy1.config.block_size
            == policy2.config.block_size,
    ensures
        policy1.can_model(workers, info, cache) == policy2.can_model(workers, info, cache),
{
    lemma_first_healthy(workers, h);
    law_entry_of_a_model(policy1.kv_monitor->0.models@, workers[h].model_id@, k);
}

/// What is looked up: the length of the prompt, for each healthy worker the blocks of the prompt
/// that the model's index matches under the worker's URL, and the most of any of them.
pub proof fn law_cache_model_is_the_lookup(
    policy: KvCentricPolicy,
    workers: Seq<WorkerState>,
    info: SelectWorkerInfo,
    cm: CacheModel,
    h: int,
    k: int,
)
    requires
        workers.len() <= usize::MAX,
        is_first_healthy(workers, h),
        policy.can_model(workers, info, Some(cm)),
        policy.kv_monitor is Some,
        is_first_entry(policy.kv_monitor->0.models@, workers[h].model_id@, k),
    ensures
        info.tokens is Some,
        cm.prompt_tokens == info.tokens->0@.len(),
        cm.local_cached@.len() == healthy_indices(workers).len(),
        exists|matched: Map<u32, u32>| #[trigger]
            can_match(
                *policy.kv_monitor->0.models@[k].indexer,
                request_hashes(info.tokens->0@, cm.block_size as nat),
                false,
                matched,
            ) && forall|p: int|
                0 <= p < healthy_indices(workers).len() ==> counts(
                    *policy.kv_monitor->0.models@[k].indexer,
                    workers[healthy_indices(workers)[p] as int].url@,
                    matched,
                    #[trigger] cm.local_cached@[p],
                ),
        forall|p: int|
            0 <= p < cm.local_cached@.len() ==> (#[trigger] cm.local_cached@[p])
                <= cm.best_cached_blocks,
        exists|p: int|
            0 <= p < cm.local_cached@.len() && (#[trigger] cm.local_cached@[p])
                == cm.best_cached_blocks,
{
    let healthy: Seq<usize> = healthy_indices(workers);
    let indexer: PositionalIndexer = *policy.kv_monitor->0.models@[k].indexer;
    let tokens: Seq<u32> = info.tokens->0@;
    lemma_first_healthy(workers, h);
    law_entry_of_a_model(policy.kv_monitor->0.models@, workers[h].model_id@, k);
    let scores: Seq<Option<u32>> = choose|scores: Seq<Option<u32>>| #[trigger]
        can_score(indexer, tokens, cm.block_size as nat, healthy_urls(workers), scores)
            && cm.local_cached@ == cached_blocks(scores);
    let urls: Seq<Seq<char>> = healthy_urls(workers);
    law_scores_are_the_matches(indexer, tokens, cm.block_size as nat, urls, scores);
    let (hashes, matched): (Seq<u64>, Map<u32, u32>) = choose|
        hashes: Seq<u64>,
        matched: Map<u32, u32>,
    |
        #![trigger can_match(indexer, hashes, false, matched)]
        {
            &&& can_match(indexer, hashes, false, matched)
            &&& hashes == request_hashes(tokens, cm.block_size as nat)
            &&& forall|i: int|
                0 <= i < urls.len() ==> counts(
                    indexer,
                    urls[i],
                    matched,
                    #[trigger] cached_blocks(scores)[i],
                )
            &&& forall|i: int|
                0 <= i < urls.len() && (#[trigger] scores[i]) is Some ==> exists|id: u32|
                    #[trigger] matched.contains_key(id) && scores[i] == Some(matched[id])
                        && can_identify(indexer, urls[i], Some(id))
        };
    assert forall|p: int| 0 <= p < healthy.len() implies counts(
        indexer,
        workers[healthy[p] as int].url@,
        matched,
        #[trigger] cm.local_cached@[p],
    ) by {
        assert(urls[p] == workers[healthy[p] as int].url@);
        assert(cached_blocks(scores)[p] == cm.local_cached@[p]);
    }
    assert(is_largest(cm.local_cached@, cm.best_cached_blocks));
    if cm.best_cached_blocks == 0 {
        assert(cm.local_cached@[0] == 0);
    }
}

// ---- The choice ----

/// Worker `i` is healthy and has the fewest requests in flight of the healthy workers: fewer than
/// those before it, and no more than those behind it.
pub open spec fn is_first_least_loaded(workers: Seq<WorkerState>, i: int) -> bool {
    &&& 0 <= i < workers.len()
    &&& workers[i].healthy
    &&& forall|j: int|
        0 <= j < workers.len() && (#[trigger] workers[j]).healthy ==> workers[i].prefill_inflight
            <= workers[j].prefill_inflight
    &&& forall|j: int|
        0 <= j < i && (#[trigger] workers[j]).healthy ==> workers[i].prefill_inflight
            < workers[j].prefill_inflight
}

impl KvCentricPolicy {
    /// The estimated time to first token on the healthy worker at position `q`, by the worker's
    /// own blocks and its own requests in flight.
    pub open spec fn time_at(self, workers: Seq<WorkerState>, cm: CacheModel, q: int) -> Binary64 {
        self.config.estimate(
            cm.prompt_tokens as nat,
            cm.local_cached@[q],
            cm.best_cached_blocks,
            workers[healthy_indices(workers)[q] as int].prefill_inflight as nat,
            cm.block_size as nat,
        ).ttft_ms
    }

    /// The healthy worker at position `p` has the least estimated time to first token: none is
    /// below it, and those before it are above. What is no number is passed over, and where no
    /// time is one it is the first worker.
    pub open spec fn is_first_least_time(
        self,
        workers: Seq<WorkerState>,
        cm: CacheModel,
        p: int,
    ) -> bool {
        let n = healthy_indices(workers).len();
        &&& 0 <= p < n
        &&& forall|q: int|
            0 <= q < n ==> !(#[trigger] self.time_at(workers, cm, q)).lt(
                self.time_at(workers, cm, p),
            )
        &&& forall|q: int|
            0 <= q < p && !(#[trigger] self.time_at(workers, cm, q)).is_nan() ==> self.time_at(
                workers,
                cm,
                p,
            ).lt(self.time_at(workers, cm, q))
        &&& self.time_at(workers, cm, p).is_nan() ==> p == 0 && forall|q: int|
            0 <= q < n ==> (#[trigger] self.time_at(workers, cm, q)).is_nan()
    }
}

/// By load, the worker selected is the first of those with the fewest requests in flight, and it
/// alone gets the reservation.
pub proof fn law_selects_first_least_loaded(
    policy: KvCentricPolicy,
    workers: Seq<WorkerState>,
    r: Option<usize>,
    after: Seq<WorkerState>,
)
    requires
        workers.len() <= usize::MAX,
        policy.selects(workers, None, r, after),
    ensures
        r is None <==> forall|i: int| 0 <= i < workers.len() ==> !(#[trigger] workers[i]).healthy,
        r matches Some(i) ==> is_first_least_loaded(workers, i as int) && after
            == with_reservation(workers, i),
        r is None ==> after == workers,
{
    let healthy: Seq<usize> = healthy_indices(workers);
    lemma_healthy_indices(workers);
    if healthy.len() == 0 {
        assert forall|i: int| 0 <= i < workers.len() implies !(#[trigger] workers[i]).healthy by {
            if workers[i].healthy {
                assert(healthy.contains(i as usize));
            }
        }
    } else {
        let p: int = choose|p: int| #[trigger]
            policy.chooses(workers, None, p) && r == Some(healthy[p]) && after == with_reservation(
                workers,
                healthy[p],
            );
        let i: int = healthy[p] as int;
        let loads: Seq<usize> = healthy_loads(workers);
        assert(workers[healthy[p] as int].healthy);
        assert(loads[p] == workers[i].prefill_inflight);
        assert forall|j: int| 0 <= j < workers.len() && (#[trigger] workers[j]).healthy implies workers[i].prefill_inflight
            <= workers[j].prefill_inflight && (j < i ==> workers[i].prefill_inflight
            < workers[j].prefill_inflight) by {
            assert(healthy.contains(j as usize));
            let q: int = choose|q: int| 0 <= q < healthy.len() && healthy[q] == j as usize;
            assert(loads[q] == workers[j].prefill_inflight);
            if j < i {
                if q > p {
                    assert(healthy[p] < healthy[q]);
                }
                assert(q < p);
            }
        }
    }
}

/// By cost, and with more than one healthy worker, the worker selected is the first of those with
/// the least estimated time to first token, and it alone gets the reservation.
pub proof fn law_selects_first_least_time(
    policy: KvCentricPolicy,
    workers: Seq<WorkerState>,
    cm: CacheModel,
    r: Option<usize>,
    after: Seq<WorkerState>,
)
    requires
        healthy_indices(workers).len() > 1,
        policy.selects(workers, Some(cm), r, after),
    ensures
        exists|p: int| #[trigger]
            policy.is_first_least_time(workers, cm, p) && r == Some(healthy_indices(workers)[p])
                && after == with_reservation(workers, healthy_indices(workers)[p]),
{
    let healthy: Seq<usize> = healthy_indices(workers);
    let costs: Seq<Binary64> = policy.healthy_costs(workers, cm);
    let p: int = choose|p: int| #[trigger]
        policy.chooses(workers, Some(cm), p) && r == Some(healthy[p]) && after == with_reservation(
            workers,
            healthy[p],
        );
    law_least_cost(costs, p);
    assert forall|q: int| 0 <= q < healthy.len() implies #[trigger] policy.time_at(workers, cm, q)
        == costs[q] by {}
    assert(policy.is_first_least_time(workers, cm, p));
}

/// With one healthy worker, that one is selected, whatever is known of the caches.
pub proof fn law_selects_the_only_candidate(
    policy: KvCentricPolicy,
    workers: Seq<WorkerState>,
    cache: Option<CacheModel>,
    r: Option<usize>,
    after: Seq<WorkerState>,
    i: usize,
)
    requires
        workers.len() <= usize::MAX,
        i < workers.len(),
        workers[i as int].healthy,
        forall|j: int| 0 <= j < workers.len() && (#[trigger] workers[j]).healthy ==> j == i,
        policy.selects(workers, cache, r, after),
    ensures
        r == Some(i),
        after == with_reservation(workers, i),
{
    let healthy: Seq<usize> = healthy_indices(workers);
    lemma_healthy_indices(workers);
    assert(healthy.contains(i));
    let p: int = choose|p: int| #[trigger]
        policy.chooses(workers, cache, p) && r == Some(healthy[p]) && after == with_reservation(
            workers,
            healthy[p],
        );
    assert(workers[healthy[p] as int].healthy);
}

/// What a request is given. Without tokens, without a monitor, or where the monitor has no entry
/// for the model of the first healthy worker, it is the first of the least loaded workers. Else,
/// with more than one healthy worker, it is the first of those with the least estimated time, by
/// what is looked up for the request.
pub proof fn law_what_a_request_is_given(
    policy: KvCentricPolicy,
    workers: Seq<WorkerState>,
    info: SelectWorkerInfo,
    r: Option<usize>,
    after: Seq<WorkerState>,
    h: int,
)
    requires
        workers.len() <= usize::MAX,
        is_first_healthy(workers, h),
        policy.can_select(workers, info, r, after),
    ensures
        r is Some,
        after == reserved_for(workers, r),
        ({
            let known = policy.kv_monitor matches Some(monitor) && exists|k: int| #[trigger]
                is_first_entry(monitor.models@, workers[h].model_id@, k);
            if healthy_indices(workers).len() > 1 && info.tokens is Some && info.tokens->0@.len()
                > 0 && known {
                exists|cm: CacheModel, p: int|
                    #![trigger policy.is_first_least_time(workers, cm, p)]
                    policy.can_model(workers, info, Some(cm)) && policy.is_first_least_time(
                        workers,
                        cm,
                        p,
                    ) && r == Some(healthy_indices(workers)[p])
            } else {
                is_first_least_loaded(workers, r->0 as int)
            }
        }),
{
    let healthy: Seq<usize> = healthy_indices(workers);
    lemma_first_healthy(workers, h);
    if healthy.len() <= 1 {
        law_selects_first_least_loaded(policy, workers, r, after);
        assert(workers[h].healthy);
    } else {
        let cache: Option<CacheModel> = choose|cache: Option<CacheModel>| #[trigger]
            policy.can_model(workers, info, cache) && policy.selects(workers, cache, r, after);
        law_when_caches_are_looked_up(policy, workers, info, cache, h);
        match cache {
            None => {
                law_selects_first_least_loaded(policy, workers, r, after);
                assert(workers[h].healthy);
            },
            Some(cm) => {
                law_selects_first_least_time(policy, workers, cm, r, after);
                let monitor = policy.kv_monitor->0;
                law_entry_of_a_model(monitor.models@, workers[h].model_id@, 0);
            },
        }
    }
}

} // verus!
