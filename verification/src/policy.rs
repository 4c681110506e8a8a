//! The KV cache-centric scheduling policy.
use crate::binary64::Binary64;
use crate::config::{in_force, KvCentricConfig};
use crate::cost::TtftEstimate;
use crate::overlap::{
    cached_blocks, can_score, first_entry, healthy_urls, is_largest, prefix_scores, CacheModel,
    KvEventMonitor, ModelIndex,
};
use crate::workers::{
    are_healthy, get_healthy_worker_indices, healthy_indices, reserved, WorkerState, WorkerType,
};
use std::sync::Arc;
use vstd::prelude::*;

verus! {

/// The policy: it picks the worker with the least estimated time to first token.
#[derive(Debug)]
pub struct KvCentricPolicy {
    pub config: KvCentricConfig,
    pub kv_monitor: Option<Arc<KvEventMonitor>>,
}

/// What the policy reads of a request.
#[derive(Clone, Copy, Debug)]
pub struct SelectWorkerInfo<'a> {
    /// The tokens of the prompt, where it has been tokenized.
    pub tokens: Option<&'a [u32]>,
}

/// Position `p` has the least of the costs that are numbers, and the first of several that are
/// least. Where none is a number, it is the first position.
pub open spec fn is_cheapest(costs: Seq<Binary64>, p: int) -> bool {
    &&& 0 <= p < costs.len()
    &&& if exists|i: int| 0 <= i < costs.len() && !(#[trigger] costs[i]).is_nan() {
        &&& !costs[p].is_nan()
        &&& forall|i: int| 0 <= i < costs.len() ==> !(#[trigger] costs[i]).lt(costs[p])
        &&& forall|i: int|
            0 <= i < p ==> (#[trigger] costs[i]).is_nan() || costs[p].lt(costs[i])
    } else {
        p == 0
    }
}

/// Position `p` has the least load, and the first of several that are least.
pub open spec fn is_least_loaded(loads: Seq<usize>, p: int) -> bool {
    &&& 0 <= p < loads.len()
    &&& forall|i: int| 0 <= i < loads.len() ==> loads[p] <= #[trigger] loads[i]
    &&& forall|i: int| 0 <= i < p ==> loads[p] < #[trigger] loads[i]
}

/// The position of the least cost.
pub fn cheapest(costs: &[Binary64]) -> (p: usize)
    requires
        costs@.len() > 0,
    ensures
        is_cheapest(costs@, p as int),
{
    let mut p: usize = 0;
    let mut i: usize = 1;
    while i < costs.len()
        invariant
            p < i <= costs@.len(),
            costs@[p as int].is_nan() ==> p == 0 && forall|k: int|
                0 <= k < i ==> (#[trigger] costs@[k]).is_nan(),
            forall|k: int| 0 <= k < i ==> !(#[trigger] costs@[k]).lt(costs@[p as int]),
            forall|k: int|
                0 <= k < p ==> (#[trigger] costs@[k]).is_nan() || costs@[p as int].lt(costs@[k]),
        decreases costs@.len() - i,
    {
        if costs[i].less_than(costs[p]) || (costs[p].not_a_number() && !costs[i].not_a_number()) {
            p = i;
        }
        i += 1;
    }
    p
}

/// The position of the least load.
pub fn least_loaded(loads: &[usize]) -> (p: usize)
    requires
        loads@.len() > 0,
    ensures
        is_least_loaded(loads@, p as int),
{
    let mut best: usize = usize::MAX;
    let mut p: usize = 0;
    let mut i: usize = 0;
    while i < loads.len()
        invariant
            loads@.len() > 0,
            i <= loads@.len(),
            p < loads@.len(),
            best == usize::MAX ==> p == 0,
            best < usize::MAX ==> p < i && best == loads@[p as int],
            forall|k: int| 0 <= k < i ==> best <= #[trigger] loads@[k],
            forall|k: int| 0 <= k < p ==> best < #[trigger] loads@[k],
        decreases loads@.len() - i,
    {
        if loads[i] < best {
            best = loads[i];
            p = i;
        }
        i += 1;
    }
    p
}

/// The requests in flight on the healthy workers.
pub open spec fn healthy_loads(workers: Seq<WorkerState>) -> Seq<usize> {
    healthy_indices(workers).map_values(|i: usize| workers[i as int].prefill_inflight)
}

/// The workers after a reservation on worker `idx`.
pub open spec fn with_reservation(workers: Seq<WorkerState>, idx: usize) -> Seq<WorkerState> {
    workers.update(idx as int, reserved(workers[idx as int]))
}

/// A reservation on the worker can be counted: there is room for one more, or none is made.
pub open spec fn has_room(worker: WorkerState) -> bool {
    worker.worker_type == WorkerType::Decode || worker.prefill_inflight < usize::MAX
}

/// A request more can be counted on every healthy worker.
pub open spec fn countable(workers: Seq<WorkerState>) -> bool {
    forall|i: int|
        0 <= i < workers.len() && (#[trigger] workers[i]).healthy ==> workers[i].prefill_inflight
            < usize::MAX
}

impl KvCentricPolicy {
    /// What the monitor has on a model.
    pub open spec fn monitored(self, model_id: Seq<char>) -> Option<ModelIndex> {
        match self.kv_monitor {
            Some(monitor) => first_entry(monitor.models@, model_id),
            None => None,
        }
    }

    /// What the monitor has on the model of the first healthy worker, where the request has a
    /// tokenized prompt: what the cost model is applied with. `None` where it cannot be.
    pub open spec fn applicable(
        self,
        workers: Seq<WorkerState>,
        info: SelectWorkerInfo,
    ) -> Option<ModelIndex> {
        if info.tokens is Some && info.tokens->0@.len() > 0 {
            self.monitored(workers[healthy_indices(workers)[0] as int].model_id@)
        } else {
            None
        }
    }

    /// `cache` is a model of the caches that the index can give rise to: `None` where the cost
    /// model cannot be applied, else what the index says of each healthy worker.
    pub open spec fn can_model(
        self,
        workers: Seq<WorkerState>,
        info: SelectWorkerInfo,
        cache: Option<CacheModel>,
    ) -> bool {
        match self.applicable(workers, info) {
            None => cache is None,
            Some(m) => {
                &&& cache matches Some(cm)
                &&& cm.prompt_tokens == info.tokens->0@.len()
                &&& cm.block_size == in_force(m.block_size, self.config.block_size)
                &&& exists|scores: Seq<Option<u32>>| #[trigger]
                    can_score(
                        *m.indexer,
                        info.tokens->0@,
                        cm.block_size as nat,
                        healthy_urls(workers),
                        scores,
                    ) && cm.local_cached@ == cached_blocks(scores)
                &&& is_largest(cm.local_cached@, cm.best_cached_blocks)
            },
        }
    }

    /// The estimate of a request on the healthy worker at position `p`.
    pub open spec fn estimate_at(
        self,
        workers: Seq<WorkerState>,
        cache: CacheModel,
        p: int,
    ) -> TtftEstimate {
        self.config.estimate(
            cache.prompt_tokens as nat,
            cache.local_cached@[p],
            cache.best_cached_blocks,
            workers[healthy_indices(workers)[p] as int].prefill_inflight as nat,
            cache.block_size as nat,
        )
    }

    /// The estimated times to first token on the healthy workers.
    pub open spec fn healthy_costs(
        self,
        workers: Seq<WorkerState>,
        cache: CacheModel,
    ) -> Seq<Binary64> {
        Seq::new(
            healthy_indices(workers).len(),
            |p: int| self.estimate_at(workers, cache, p).ttft_ms,
        )
    }

    /// The healthy worker at position `p` is the one to choose.
    pub open spec fn chooses(
        self,
        workers: Seq<WorkerState>,
        cache: Option<CacheModel>,
        p: int,
    ) -> bool {
        &&& 0 <= p < healthy_indices(workers).len()
        &&& healthy_indices(workers).len() > 1 ==> match cache {
            Some(cm) => is_cheapest(self.healthy_costs(workers, cm), p),
            None => is_least_loaded(healthy_loads(workers), p),
        }
    }

    /// The requests that a selection counts can be counted. Estimates count the request on every
    /// healthy worker. A selection without them counts it on the worker chosen alone.
    pub open spec fn can_count(self, workers: Seq<WorkerState>, by_cost: bool) -> bool {
        if by_cost && healthy_indices(workers).len() > 1 {
            countable(workers)
        } else {
            forall|p: int| #[trigger]
                self.chooses(workers, None, p) ==> has_room(
                    workers[healthy_indices(workers)[p] as int],
                )
        }
    }

    /// `r` is selected among the workers, and `after` is what becomes of them.
    pub open spec fn selects(
        self,
        workers: Seq<WorkerState>,
        cache: Option<CacheModel>,
        r: Option<usize>,
        after: Seq<WorkerState>,
    ) -> bool {
        if healthy_indices(workers).len() == 0 {
            r is None && after == workers
        } else {
            exists|p: int| #[trigger]
                self.chooses(workers, cache, p) && r == Some(healthy_indices(workers)[p]) && after
                    == with_reservation(workers, healthy_indices(workers)[p])
        }
    }

    /// `r` is a selection for a request: by a model of the caches that the index can give rise to,
    /// where there is more than one worker to choose from.
    pub open spec fn can_select(
        self,
        workers: Seq<WorkerState>,
        info: SelectWorkerInfo,
        r: Option<usize>,
        after: Seq<WorkerState>,
    ) -> bool {
        if healthy_indices(workers).len() <= 1 {
            self.selects(workers, None, r, after)
        } else {
            exists|cache: Option<CacheModel>| #[trigger]
                self.can_model(workers, info, cache) && self.selects(workers, cache, r, after)
        }
    }

    /// A policy with these coefficients and no monitor.
    pub fn with_config(config: KvCentricConfig) -> (r: Self)
        ensures
            r.config == config,
            r.kv_monitor is None,
    {
        KvCentricPolicy { config, kv_monitor: None }
    }

    /// Sets the monitor, or takes it away.
    pub fn set_kv_event_monitor(&mut self, monitor: Option<Arc<KvEventMonitor>>)
        ensures
            final(self).kv_monitor == monitor,
            final(self).config == old(self).config,
    {
        self.kv_monitor = monitor;
    }

    /// Reserves a prefill slot on worker `idx`, if that worker performs prefill: one that only
    /// decodes is left as it is.
    pub fn reserve_compute_slot(&self, workers: &mut [WorkerState], idx: usize)
        requires
            idx < old(workers)@.len(),
            has_room(old(workers)@[idx as int]),
        ensures
            final(workers)@ == with_reservation(old(workers)@, idx),
    {
        if workers[idx].worker_type != WorkerType::Decode {
            workers[idx].prefill_inflight = workers[idx].prefill_inflight + 1;
        }
    }

    /// How much of the prompt each healthy worker has cached. `None` where the cost model cannot
    /// be applied: no tokens, no monitor, or no index for the model of the first healthy worker.
    ///
    /// This reads no reservations, so it needs no part in the selection's critical section.
    pub fn cache_model(&self, workers: &[WorkerState], info: &SelectWorkerInfo) -> (r: Option<
        CacheModel,
    >)
        requires
            healthy_indices(workers@).len() > 0,
        ensures
            self.can_model(workers@, *info, r),
            r matches Some(cm) ==> cm.fits(healthy_indices(workers@).len()),
            r matches Some(cm) ==> cm.best_cached_blocks * cm.block_size <= cm.prompt_tokens,
    {
        let healthy: Vec<usize> = get_healthy_worker_indices(workers);
        let tokens: &[u32] = match info.tokens {
            Some(t) => t,
            None => return None,
        };
        if tokens.len() == 0 {
            return None;
        }
        let monitor: &Arc<KvEventMonitor> = match &self.kv_monitor {
            Some(m) => m,
            None => return None,
        };
        let model_id: &String = &workers[healthy[0]].model_id;
        let indexer: &Arc<kv_index::PositionalIndexer> = match monitor.get_indexer(model_id) {
            Some(ix) => ix,
            None => return None,
        };
        let block_size: usize = match monitor.block_size(model_id) {
            Some(n) => n,
            None => self.config.block_size,
        };
        let scores: Vec<Option<u32>> = prefix_scores(indexer, tokens, block_size, workers);
        let r: CacheModel = CacheModel::from_scores(tokens.len(), block_size, &scores);
        proof {
            let (best, size, total): (nat, nat, nat) = (
                r.best_cached_blocks as nat,
                block_size as nat,
                tokens@.len(),
            );
            if best == 0 {
                assert(best * size == 0) by (nonlinear_arith)
                    requires
                        best == 0,
                ;
            } else {
                let i: int = choose|i: int|
                    0 <= i < r.local_cached@.len() && r.local_cached@[i] == r.best_cached_blocks;
                assert(scores@[i] is Some);
                assert(best * size <= total) by (nonlinear_arith)
                    requires
                        size > 0,
                        best <= total / size,
                ;
            }
        }
        Some(r)
    }

    /// Chooses among the healthy workers and reserves a slot on the one chosen: the one with the
    /// least estimated time to first token, or, where there is no model of the caches, the one
    /// with the fewest requests in flight.
    ///
    /// A caller that selects from several threads holds a lock from reading the requests in
    /// flight until the reservation is made, so that each selection sees those before it.
    pub fn select_with(&self, workers: &mut [WorkerState], cache: &Option<CacheModel>) -> (r: Option<
        usize,
    >)
        requires
            self.can_count(old(workers)@, *cache is Some),
            healthy_indices(old(workers)@).len() > 1 ==> (*cache matches Some(cm) ==> cm.fits(
                healthy_indices(old(workers)@).len(),
            )),
        ensures
            self.selects(old(workers)@, *cache, r, final(workers)@),
    {
        let healthy: Vec<usize> = get_healthy_worker_indices(workers);
        let ghost before: Seq<WorkerState> = workers@;
        if healthy.len() == 0 {
            return None;
        }
        // A single candidate: there is nothing to decide.
        if healthy.len() == 1 {
            let idx: usize = healthy[0];
            assert(self.chooses(before, None, 0));
            assert(self.chooses(before, *cache, 0));
            self.reserve_compute_slot(workers, idx);
            return Some(idx);
        }
        let p: usize = match cache {
            Some(cm) => {
                let costs: Vec<Binary64> = self.costs(workers, &healthy, cm);
                cheapest(&costs)
            },
            None => {
                let loads: Vec<usize> = loads(workers, &healthy);
                least_loaded(&loads)
            },
        };
        let idx: usize = healthy[p];
        assert(self.chooses(before, *cache, p as int));
        self.reserve_compute_slot(workers, idx);
        Some(idx)
    }

    fn costs(&self, workers: &[WorkerState], healthy: &Vec<usize>, cache: &CacheModel) -> (r: Vec<
        Binary64,
    >)
        requires
            healthy@ == healthy_indices(workers@),
            are_healthy(workers@, healthy@),
            countable(workers@),
            cache.fits(healthy@.len()),
        ensures
            r@ == self.healthy_costs(workers@, *cache),
    {
        let mut r: Vec<Binary64> = Vec::new();
        let mut p: usize = 0;
        while p < healthy.len()
            invariant
                healthy@ == healthy_indices(workers@),
                are_healthy(workers@, healthy@),
                countable(workers@),
                cache.fits(healthy@.len()),
                p <= healthy@.len(),
                r@ == self.healthy_costs(workers@, *cache).take(p as int),
            decreases healthy@.len() - p,
        {
            // Requests reserved on this worker that have not left prefill yet.
            let queue_depth: usize = workers[healthy[p]].prefill_inflight;
            let local: u32 = cache.local_cached[p];
            proof {
                assert(local * cache.block_size <= cache.best_cached_blocks * cache.block_size)
                    by (nonlinear_arith)
                    requires
                        local <= cache.best_cached_blocks,
                ;
            }
            let estimate: TtftEstimate = self.estimate_ttft(
                cache.prompt_tokens,
                local,
                cache.best_cached_blocks,
                queue_depth,
                cache.block_size,
            );
            r.push(estimate.ttft_ms);
            p += 1;
            assert(r@ =~= self.healthy_costs(workers@, *cache).take(p as int));
        }
        assert(r@ =~= self.healthy_costs(workers@, *cache));
        r
    }

    /// Selects a worker for a request and reserves a prefill slot on it.
    pub fn select_worker(&self, workers: &mut [WorkerState], info: &SelectWorkerInfo) -> (r: Option<
        usize,
    >)
        requires
            self.can_count(old(workers)@, self.applicable(old(workers)@, *info) is Some),
        ensures
            self.can_select(old(workers)@, *info, r, final(workers)@),
    {
        let healthy: Vec<usize> = get_healthy_worker_indices(workers);
        let cache: Option<CacheModel> = if healthy.len() > 1 {
            self.cache_model(workers, info)
        } else {
            None
        };
        self.select_with(workers, &cache)
    }

    /// The policy's name in configurations.
    pub fn name(&self) -> (r: &'static str)
        ensures
            r@ == "kv_centric"@,
    {
        "kv_centric"
    }

    /// Whether a selection needs the text of the request: it goes by tokens.
    pub fn needs_request_text(&self) -> (r: bool)
        ensures
            r == false,
    {
        false
    }
}

fn loads(workers: &[WorkerState], healthy: &Vec<usize>) -> (r: Vec<usize>)
    requires
        healthy@ == healthy_indices(workers@),
        are_healthy(workers@, healthy@),
    ensures
        r@ == healthy_loads(workers@),
{
    let mut r: Vec<usize> = Vec::new();
    let mut p: usize = 0;
    while p < healthy.len()
        invariant
            healthy@ == healthy_indices(workers@),
            are_healthy(workers@, healthy@),
            p <= healthy@.len(),
            r@ == healthy_loads(workers@).take(p as int),
        decreases healthy@.len() - p,
    {
        r.push(workers[healthy[p]].prefill_inflight);
        p += 1;
        assert(r@ =~= healthy_loads(workers@).take(p as int));
    }
    assert(r@ =~= healthy_loads(workers@));
    r
}

} // verus!
