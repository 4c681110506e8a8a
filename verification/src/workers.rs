//! What the policy reads and changes of a worker.
use vstd::prelude::*;

verus! {

/// The part that a worker plays in the deployment.
#[derive(Clone, Copy, Debug, PartialEq, Eq, Structural)]
pub enum WorkerType {
    /// Prefill and decode on one worker.
    Regular,
    /// Prefill only.
    Prefill,
    /// Decode only.
    Decode,
}

/// A worker as a selection sees it.
#[derive(Debug)]
pub struct WorkerState {
    pub url: String,
    pub model_id: String,
    pub worker_type: WorkerType,
    /// The worker can be given requests.
    pub healthy: bool,
    /// Requests reserved on this worker that have not left prefill yet, queued or running.
    pub prefill_inflight: usize,
}

/// The indices of the healthy workers, in increasing order.
pub open spec fn healthy_indices(workers: Seq<WorkerState>) -> Seq<usize>
    decreases workers.len(),
{
    if workers.len() == 0 {
        Seq::empty()
    } else {
        let before = healthy_indices(workers.drop_last());
        if workers.last().healthy {
            before.push((workers.len() - 1) as usize)
        } else {
            before
        }
    }
}

/// Every one of the indices is that of a healthy worker.
pub open spec fn are_healthy(workers: Seq<WorkerState>, indices: Seq<usize>) -> bool {
    forall|k: int|
        0 <= k < indices.len() ==> (#[trigger] indices[k]) < workers.len()
            && workers[indices[k] as int].healthy
}

/// The healthy indices are those of the healthy workers, each once and in increasing order.
pub proof fn lemma_healthy_indices(workers: Seq<WorkerState>)
    requires
        workers.len() <= usize::MAX,
    ensures
        are_healthy(workers, healthy_indices(workers)),
        forall|k: int, l: int|
            0 <= k < l < healthy_indices(workers).len() ==> (#[trigger] healthy_indices(workers)[k])
                < #[trigger] healthy_indices(workers)[l],
        forall|i: int|
            0 <= i < workers.len() && (#[trigger] workers[i]).healthy ==> healthy_indices(
                workers,
            ).contains(i as usize),
    decreases workers.len(),
{
    if workers.len() > 0 {
        let rest: Seq<WorkerState> = workers.drop_last();
        lemma_healthy_indices(rest);
        let before: Seq<usize> = healthy_indices(rest);
        let all: Seq<usize> = healthy_indices(workers);
        assert forall|k: int| 0 <= k < all.len() implies (#[trigger] all[k]) < workers.len()
            && workers[all[k] as int].healthy by {
            if k < before.len() {
                assert(all[k] == before[k]);
                assert(rest[before[k] as int].healthy);
            }
        }
        assert forall|k: int, l: int| 0 <= k < l < all.len() implies (#[trigger] all[k])
            < #[trigger] all[l] by {
            assert(all[k] == before[k]);
            if l < before.len() {
                assert(all[l] == before[l]);
            }
        }
        assert forall|i: int| 0 <= i < workers.len() && (#[trigger] workers[i]).healthy implies all.contains(
            i as usize,
        ) by {
            if i < rest.len() {
                assert(rest[i].healthy);
                let k: int = choose|k: int| 0 <= k < before.len() && before[k] == i as usize;
                assert(all[k] == i as usize);
            } else {
                assert(all[all.len() - 1] == i as usize);
            }
        }
    }
}

/// The indices of the healthy workers.
pub fn get_healthy_worker_indices(workers: &[WorkerState]) -> (r: Vec<usize>)
    ensures
        r@ == healthy_indices(workers@),
        are_healthy(workers@, r@),
{
    let mut r: Vec<usize> = Vec::new();
    let mut i: usize = 0;
    while i < workers.len()
        invariant
            i <= workers@.len(),
            r@ == healthy_indices(workers@.take(i as int)),
        decreases workers@.len() - i,
    {
        assert(workers@.take(i + 1).drop_last() =~= workers@.take(i as int));
        if workers[i].healthy {
            r.push(i);
        }
        i += 1;
    }
    proof {
        assert(workers@.take(i as int) =~= workers@);
        lemma_healthy_indices(workers@);
    }
    r
}

/// A worker with one more reservation, if it performs prefill.
pub open spec fn reserved(w: WorkerState) -> WorkerState {
    if w.worker_type == WorkerType::Decode {
        w
    } else {
        WorkerState { prefill_inflight: (w.prefill_inflight + 1) as usize, ..w }
    }
}

} // verus!
