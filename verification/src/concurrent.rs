//! Selections from several threads at once.
//!
//! A call of the policy takes five steps: it looks up the caches, takes the lock, reads the
//! requests in flight, chooses and reserves, and gives the lock back. Here the steps of any number
//! of calls come in any order that the lock allows, and what the calls return is shown to be what
//! they would return one after the other.
//!
//! A call with at most one healthy worker has nothing to choose and takes no lock. It has no part
//! here, and nor does a request that leaves prefill, or a worker that falls ill, while the calls
//! are under way.
use crate::laws::{
    in_a_row, law_burst_visits_each_once, law_selection_exists, lemma_same_model, level,
    reserved_for,
};
use crate::overlap::CacheModel;
use crate::policy::{countable, KvCentricPolicy, SelectWorkerInfo};
use crate::workers::{healthy_indices, lemma_healthy_indices, WorkerState};
use vstd::prelude::*;

verus! {

/// How far a call has come.
pub enum Call {
    /// It has done nothing yet.
    Called,
    /// It has looked up the caches.
    Looked { cache: Option<CacheModel> },
    /// It has taken the lock.
    Locked { cache: Option<CacheModel> },
    /// It has read the workers with their requests in flight, and saw `seen`.
    Read { cache: Option<CacheModel>, seen: Seq<WorkerState> },
    /// It has chosen, and has reserved a slot on the worker chosen.
    Reserved { r: Option<usize> },
    /// It has given the lock back and returned.
    Returned { r: Option<usize> },
}

impl Call {
    /// The call is between taking the lock and giving it back.
    pub open spec fn is_inside(self) -> bool {
        self is Locked || self is Read || self is Reserved
    }

    /// The call has chosen.
    pub open spec fn has_chosen(self) -> bool {
        self is Reserved || self is Returned
    }

    /// What the call has chosen.
    pub open spec fn choice(self) -> Option<usize> {
        match self {
            Call::Reserved { r } => r,
            Call::Returned { r } => r,
            _ => None,
        }
    }

    /// What the call has yet to choose by.
    pub open spec fn lookup(self) -> Option<Option<CacheModel>> {
        match self {
            Call::Looked { cache } => Some(cache),
            Call::Locked { cache } => Some(cache),
            Call::Read { cache, .. } => Some(cache),
            _ => None,
        }
    }
}

/// A moment in the course of the calls.
pub struct Moment {
    /// The workers, with the requests in flight on them now.
    pub workers: Seq<WorkerState>,
    /// The call that has the lock.
    pub holder: Option<int>,
    /// How far each call has come.
    pub calls: Seq<Call>,
    /// The calls that have chosen, in the order in which they did.
    pub order: Seq<int>,
    /// The workers at first, and after each reservation.
    pub past: Seq<Seq<WorkerState>>,
}

impl Moment {
    /// What has been chosen, in the order in which it was.
    pub open spec fn choices(self) -> Seq<Option<usize>> {
        Seq::new(self.order.len(), |t: int| self.calls[self.order[t]].choice())
    }

    /// The requests that have been chosen for, in the order in which they were.
    pub open spec fn requests<'a>(self, infos: Seq<SelectWorkerInfo<'a>>) -> Seq<
        SelectWorkerInfo<'a>,
    > {
        Seq::new(self.order.len(), |t: int| infos[self.order[t]])
    }

    /// Nothing has been done for the requests yet.
    pub open spec fn is_first(self, infos: Seq<SelectWorkerInfo>) -> bool {
        &&& self.holder is None
        &&& self.calls.len() == infos.len()
        &&& forall|i: int| 0 <= i < self.calls.len() ==> (#[trigger] self.calls[i]) is Called
        &&& self.order.len() == 0
        &&& self.past == seq![self.workers]
    }
}

/// Call `i` looks up the caches, outside of the lock.
pub open spec fn looks(
    policy: KvCentricPolicy,
    infos: Seq<SelectWorkerInfo>,
    a: Moment,
    i: int,
    b: Moment,
) -> bool {
    &&& a.calls[i] is Called
    &&& exists|cache: Option<CacheModel>| #[trigger]
        policy.can_model(a.workers, infos[i], cache) && b == (Moment {
            calls: a.calls.update(i, Call::Looked { cache }),
            ..a
        })
}

/// Call `i` takes the lock, which no call has.
pub open spec fn locks(a: Moment, i: int, b: Moment) -> bool {
    &&& a.holder is None
    &&& a.calls[i] matches Call::Looked { cache }
    &&& b == (Moment {
        holder: Some(i),
        calls: a.calls.update(i, Call::Locked { cache }),
        ..a
    })
}

/// Call `i`, which has taken the lock, reads the workers.
pub open spec fn reads(a: Moment, i: int, b: Moment) -> bool {
    &&& a.calls[i] matches Call::Locked { cache }
    &&& b == (Moment {
        calls: a.calls.update(i, Call::Read { cache, seen: a.workers }),
        ..a
    })
}

/// Call `i` chooses by what it saw, and reserves a slot on the worker as it is now.
pub open spec fn reserves(policy: KvCentricPolicy, a: Moment, i: int, b: Moment) -> bool {
    &&& a.calls[i] matches Call::Read { cache, seen }
    &&& exists|r: Option<usize>, after: Seq<WorkerState>| #[trigger]
        policy.selects(seen, cache, r, after) && b == (Moment {
            workers: reserved_for(a.workers, r),
            holder: a.holder,
            calls: a.calls.update(i, Call::Reserved { r }),
            order: a.order.push(i),
            past: a.past.push(reserved_for(a.workers, r)),
        })
}

/// Call `i` gives the lock back and returns.
pub open spec fn returns_choice(a: Moment, i: int, b: Moment) -> bool {
    &&& a.calls[i] matches Call::Reserved { r }
    &&& b == (Moment {
        holder: None,
        calls: a.calls.update(i, Call::Returned { r }),
        ..a
    })
}

/// Call `i` takes its next step.
pub open spec fn moves(
    policy: KvCentricPolicy,
    infos: Seq<SelectWorkerInfo>,
    a: Moment,
    i: int,
    b: Moment,
) -> bool {
    &&& 0 <= i < a.calls.len()
    &&& {
        ||| looks(policy, infos, a, i, b)
        ||| locks(a, i, b)
        ||| reads(a, i, b)
        ||| reserves(policy, a, i, b)
        ||| returns_choice(a, i, b)
    }
}

/// Some call takes its next step from moment `t` to the one after.
pub open spec fn goes_on(
    policy: KvCentricPolicy,
    infos: Seq<SelectWorkerInfo>,
    moments: Seq<Moment>,
    t: int,
) -> bool {
    exists|i: int| #[trigger] moves(policy, infos, moments[t], i, moments[t + 1])
}

/// A course that calls for these requests can take, step by step.
pub open spec fn is_course(
    policy: KvCentricPolicy,
    infos: Seq<SelectWorkerInfo>,
    moments: Seq<Moment>,
) -> bool {
    &&& moments.len() > 0
    &&& moments[0].is_first(infos)
    &&& forall|t: int|
        0 <= t < moments.len() - 1 ==> #[trigger] goes_on(policy, infos, moments, t)
}

/// The same workers but for the requests in flight.
spec fn same_but_inflight(w1: Seq<WorkerState>, w2: Seq<WorkerState>) -> bool {
    &&& w1.len() == w2.len()
    &&& forall|i: int|
        0 <= i < w1.len() ==> (#[trigger] w2[i]).healthy == w1[i].healthy && w2[i].url == w1[i].url
            && w2[i].model_id == w1[i].model_id
}

/// The lock has been respected: the call inside it has it, and what it saw there still holds.
spec fn lock_respected(m: Moment) -> bool {
    &&& m.holder matches Some(i) ==> 0 <= i < m.calls.len() && m.calls[i].is_inside()
    &&& forall|i: int|
        0 <= i < m.calls.len() && (#[trigger] m.calls[i]).is_inside() ==> m.holder == Some(i)
    &&& forall|i: int|
        0 <= i < m.calls.len() ==> ((#[trigger] m.calls[i]) matches Call::Read { seen, .. }
            ==> seen == m.workers)
}

/// What every moment of a course keeps.
spec fn in_order(
    policy: KvCentricPolicy,
    infos: Seq<SelectWorkerInfo>,
    first: Seq<WorkerState>,
    m: Moment,
) -> bool {
    &&& m.calls.len() == infos.len()
    &&& same_but_inflight(first, m.workers)
    &&& lock_respected(m)
    &&& forall|i: int|
        0 <= i < m.calls.len() ==> ((#[trigger] m.calls[i]).lookup() matches Some(cache)
            ==> policy.can_model(m.workers, infos[i], cache))
    &&& forall|t: int| 0 <= t < m.order.len() ==> 0 <= #[trigger] m.order[t] < m.calls.len()
    &&& m.order.no_duplicates()
    &&& forall|i: int|
        0 <= i < m.calls.len() ==> ((#[trigger] m.calls[i]).has_chosen() <==> m.order.contains(i))
    &&& m.past.len() == m.order.len() + 1
    &&& m.past.first() == first
    &&& m.past.last() == m.workers
    &&& in_a_row(policy, m.past, m.requests(infos), m.choices())
}

/// A step that is no choice leaves the choices as they are.
proof fn lemma_no_choice(
    policy: KvCentricPolicy,
    infos: Seq<SelectWorkerInfo>,
    first: Seq<WorkerState>,
    a: Moment,
    i: int,
    b: Moment,
)
    requires
        first.len() <= usize::MAX,
        in_order(policy, infos, first, a),
        0 <= i < a.calls.len(),
        looks(policy, infos, a, i, b) || locks(a, i, b) || reads(a, i, b) || returns_choice(
            a,
            i,
            b,
        ),
    ensures
        in_order(policy, infos, first, b),
{
    assert forall|j: int| 0 <= j < b.calls.len() && j != i implies (#[trigger] b.calls[j])
        == a.calls[j] by {}
    assert(b.calls[i].has_chosen() == a.calls[i].has_chosen());
    assert(b.calls[i].choice() == a.calls[i].choice());
    assert forall|j: int| 0 <= j < b.calls.len() implies (#[trigger] b.calls[j]).has_chosen()
        == a.calls[j].has_chosen() && b.calls[j].choice() == a.calls[j].choice() by {}
    assert(b.choices() =~= a.choices());
    assert(b.requests(infos) =~= a.requests(infos));
}

/// A choice is the next one in the row.
proof fn lemma_choice(
    policy: KvCentricPolicy,
    infos: Seq<SelectWorkerInfo>,
    first: Seq<WorkerState>,
    a: Moment,
    i: int,
    b: Moment,
)
    requires
        first.len() <= usize::MAX,
        healthy_indices(first).len() > 1,
        in_order(policy, infos, first, a),
        0 <= i < a.calls.len(),
        reserves(policy, a, i, b),
    ensures
        in_order(policy, infos, first, b),
{
    let cache: Option<CacheModel> = a.calls[i]->Read_cache;
    let seen: Seq<WorkerState> = a.calls[i]->seen;
    assert(seen == a.workers);
    assert(a.calls[i].lookup() == Some(cache));
    lemma_same_model(policy, first, a.workers, infos[i], cache);
    let healthy: Seq<usize> = healthy_indices(a.workers);
    lemma_healthy_indices(a.workers);
    let (r, after): (Option<usize>, Seq<WorkerState>) = choose|
        r: Option<usize>,
        after: Seq<WorkerState>,
    | #[trigger]
        policy.selects(seen, cache, r, after) && b == (Moment {
            workers: reserved_for(a.workers, r),
            holder: a.holder,
            calls: a.calls.update(i, Call::Reserved { r }),
            order: a.order.push(i),
            past: a.past.push(reserved_for(a.workers, r)),
        });
    assert(after == b.workers);
    assert(policy.can_select(a.workers, infos[i], r, b.workers));
    assert(same_but_inflight(a.workers, b.workers));
    // No other call is inside the lock.
    assert forall|j: int| 0 <= j < b.calls.len() && j != i implies (#[trigger] b.calls[j])
        == a.calls[j] && !b.calls[j].is_inside() by {
        assert(a.calls[i].is_inside());
        assert(!a.calls[j].is_inside());
    }
    assert forall|j: int| 0 <= j < b.calls.len() implies ((#[trigger] b.calls[j]).lookup() matches Some(
        c,
    ) ==> policy.can_model(b.workers, infos[j], c)) by {
        if j != i {
            if let Some(c) = b.calls[j].lookup() {
                assert(policy.can_model(a.workers, infos[j], c));
                lemma_same_model(policy, a.workers, b.workers, infos[j], c);
            }
        }
    }
    assert(!a.order.contains(i)) by {
        assert(!a.calls[i].has_chosen());
    }
    assert forall|j: int| 0 <= j < b.calls.len() implies ((#[trigger] b.calls[j]).has_chosen()
        <==> b.order.contains(j)) by {
        if j == i {
            assert(b.order[a.order.len() as int] == i);
        } else {
            assert(a.calls[j].has_chosen() <==> a.order.contains(j));
            if a.order.contains(j) {
                let t: int = choose|t: int| 0 <= t < a.order.len() && a.order[t] == j;
                assert(b.order[t] == j);
            }
            if b.order.contains(j) {
                let t: int = choose|t: int| 0 <= t < b.order.len() && b.order[t] == j;
                assert(a.order[t] == j);
            }
        }
    }
    assert forall|t: int| 0 <= t < a.order.len() implies a.order[t] != i by {
        if a.order[t] == i {
            assert(a.order.contains(i));
        }
    }
    assert(b.choices() =~= a.choices().push(r));
    assert(b.requests(infos) =~= a.requests(infos).push(infos[i]));
    assert forall|t: int|
        #![trigger b.choices()[t]]
        0 <= t < b.choices().len() implies policy.can_select(
        b.past[t],
        b.requests(infos)[t],
        b.choices()[t],
        b.past[t + 1],
    ) by {
        if t < a.order.len() {
            assert(a.choices()[t] == b.choices()[t]);
        }
    }
}

proof fn lemma_in_order(
    policy: KvCentricPolicy,
    infos: Seq<SelectWorkerInfo>,
    moments: Seq<Moment>,
    t: int,
)
    requires
        is_course(policy, infos, moments),
        moments[0].workers.len() <= usize::MAX,
        healthy_indices(moments[0].workers).len() > 1,
        0 <= t < moments.len(),
    ensures
        in_order(policy, infos, moments[0].workers, moments[t]),
    decreases t,
{
    let first: Seq<WorkerState> = moments[0].workers;
    if t > 0 {
        lemma_in_order(policy, infos, moments, t - 1);
        let (a, b): (Moment, Moment) = (moments[t - 1], moments[t]);
        assert(goes_on(policy, infos, moments, t - 1));
        let i: int = choose|i: int| #[trigger] moves(policy, infos, a, i, b);
        if reserves(policy, a, i, b) {
            lemma_choice(policy, infos, first, a, i, b);
        } else {
            lemma_no_choice(policy, infos, first, a, i, b);
        }
    }
}

/// Calls that run at once do what they would do one after the other. At every moment, whatever
/// the order of their steps, what has been chosen are selections in a row, in the order of
/// `order`, from the workers at first to the workers now: each made by the reservations of all
/// those before it. No call chooses twice, and no two are inside the lock.
pub proof fn law_concurrent_calls_are_in_a_row(
    policy: KvCentricPolicy,
    infos: Seq<SelectWorkerInfo>,
    moments: Seq<Moment>,
    t: int,
)
    requires
        is_course(policy, infos, moments),
        moments[0].workers.len() <= usize::MAX,
        healthy_indices(moments[0].workers).len() > 1,
        0 <= t < moments.len(),
    ensures
        ({
            let now = moments[t];
            &&& in_a_row(policy, now.past, now.requests(infos), now.choices())
            &&& now.past.first() == moments[0].workers
            &&& now.past.last() == now.workers
            &&& now.order.no_duplicates()
            &&& now.calls.len() == infos.len()
            &&& forall|i: int|
                0 <= i < now.calls.len() ==> ((#[trigger] now.calls[i]).has_chosen()
                    <==> now.order.contains(i))
            &&& forall|i: int, j: int|
                0 <= i < now.calls.len() && 0 <= j < now.calls.len() && (
                #[trigger] now.calls[i]).is_inside() && (#[trigger] now.calls[j]).is_inside() ==> i
                    == j
        }),
{
    lemma_in_order(policy, infos, moments, t);
}

/// The calls do not block one another: until all have returned, some call can take its next step.
/// What the index says of the caches is its own; all that is asked of it is that it answers.
pub proof fn law_calls_do_not_block(
    policy: KvCentricPolicy,
    infos: Seq<SelectWorkerInfo>,
    moments: Seq<Moment>,
    t: int,
)
    requires
        is_course(policy, infos, moments),
        moments[0].workers.len() <= usize::MAX,
        healthy_indices(moments[0].workers).len() > 1,
        forall|i: int|
            #![trigger infos[i]]
            0 <= i < infos.len() ==> exists|cache: Option<CacheModel>| #[trigger]
                policy.can_model(moments[0].workers, infos[i], cache),
        0 <= t < moments.len(),
        exists|i: int| 0 <= i < moments[t].calls.len() && (#[trigger] moments[t].calls[i]) !is Returned,
    ensures
        exists|i: int, next: Moment| #[trigger] moves(policy, infos, moments[t], i, next),
{
    let first: Seq<WorkerState> = moments[0].workers;
    let now: Moment = moments[t];
    lemma_in_order(policy, infos, moments, t);
    let i: int = match now.holder {
        Some(h) => h,
        None => choose|i: int| 0 <= i < now.calls.len() && (#[trigger] now.calls[i]) !is Returned,
    };
    match now.calls[i] {
        Call::Called => {
            let cache: Option<CacheModel> = choose|cache: Option<CacheModel>| #[trigger]
                policy.can_model(first, infos[i], cache);
            lemma_same_model(policy, first, now.workers, infos[i], cache);
            let next: Moment = Moment {
                calls: now.calls.update(i, Call::Looked { cache }),
                ..now
            };
            assert(looks(policy, infos, now, i, next));
            assert(moves(policy, infos, now, i, next));
        },
        Call::Looked { cache } => {
            let next: Moment = Moment {
                holder: Some(i),
                calls: now.calls.update(i, Call::Locked { cache }),
                ..now
            };
            assert(now.holder is None);
            assert(moves(policy, infos, now, i, next));
        },
        Call::Locked { cache } => {
            let next: Moment = Moment {
                calls: now.calls.update(i, Call::Read { cache, seen: now.workers }),
                ..now
            };
            assert(moves(policy, infos, now, i, next));
        },
        Call::Read { cache, seen } => {
            law_selection_exists(policy, seen, cache);
            let r: Option<usize> = choose|r: Option<usize>|
                policy.selects(seen, cache, r, #[trigger] reserved_for(seen, r));
            let next: Moment = Moment {
                workers: reserved_for(now.workers, r),
                holder: now.holder,
                calls: now.calls.update(i, Call::Reserved { r }),
                order: now.order.push(i),
                past: now.past.push(reserved_for(now.workers, r)),
            };
            assert(policy.selects(seen, cache, r, reserved_for(seen, r)));
            assert(reserves(policy, now, i, next));
            assert(moves(policy, infos, now, i, next));
        },
        Call::Reserved { r } => {
            let next: Moment = Moment {
                holder: None,
                calls: now.calls.update(i, Call::Returned { r }),
                ..now
            };
            assert(moves(policy, infos, now, i, next));
        },
        Call::Returned { .. } => {},
    }
}

/// A simultaneous burst goes round: without a cost model, and where every healthy worker performs
/// prefill and all of them start with the same number of requests in flight, calls that run at
/// once choose different workers, however their steps come. As many calls as there are healthy
/// workers have, once all have chosen, chosen each of them exactly once.
pub proof fn law_concurrent_burst_visits_each_once(
    policy: KvCentricPolicy,
    infos: Seq<SelectWorkerInfo>,
    moments: Seq<Moment>,
    t: int,
)
    requires
        is_course(policy, infos, moments),
        moments[0].workers.len() <= usize::MAX,
        1 < healthy_indices(moments[0].workers).len(),
        infos.len() <= healthy_indices(moments[0].workers).len(),
        countable(moments[0].workers),
        level(moments[0].workers),
        forall|i: int|
            0 <= i < infos.len() ==> policy.applicable(
                moments[0].workers,
                #[trigger] infos[i],
            ) is None,
        0 <= t < moments.len(),
    ensures
        ({
            let now = moments[t];
            let healthy = healthy_indices(moments[0].workers);
            &&& forall|i: int|
                0 <= i < now.calls.len() && (#[trigger] now.calls[i]).has_chosen()
                    ==> now.calls[i].choice() is Some && healthy.contains(now.calls[i].choice()->0)
            &&& forall|i: int, j: int|
                0 <= i < now.calls.len() && 0 <= j < now.calls.len() && i != j && (
                #[trigger] now.calls[i]).has_chosen() && (#[trigger] now.calls[j]).has_chosen()
                    ==> now.calls[i].choice() != now.calls[j].choice()
            &&& infos.len() == healthy.len() && (forall|i: int|
                0 <= i < now.calls.len() ==> (#[trigger] now.calls[i]).has_chosen()) ==> forall|
                k: int,
            |
                #![trigger healthy[k]]
                0 <= k < healthy.len() ==> exists|i: int|
                    0 <= i < now.calls.len() && (#[trigger] now.calls[i]).choice() == Some(
                        healthy[k],
                    )
        }),
{
    let first: Seq<WorkerState> = moments[0].workers;
    let healthy: Seq<usize> = healthy_indices(first);
    let now: Moment = moments[t];
    lemma_in_order(policy, infos, moments, t);
    let (choices, requests): (Seq<Option<usize>>, Seq<SelectWorkerInfo>) = (
        now.choices(),
        now.requests(infos),
    );
    lemma_positions(now.order, now.calls.len());
    assert forall|s: int| 0 <= s < requests.len() implies policy.applicable(
        now.past[0],
        #[trigger] requests[s],
    ) is None by {
        assert(requests[s] == infos[now.order[s]]);
    }
    law_burst_visits_each_once(policy, now.past, requests, choices);
    assert forall|i: int| 0 <= i < now.calls.len() && (#[trigger] now.calls[i]).has_chosen() implies now.calls[i].choice() is Some
        && healthy.contains(now.calls[i].choice()->0) by {
        let s: int = choose|s: int| 0 <= s < now.order.len() && now.order[s] == i;
        assert(now.order.contains(i));
        assert(choices[s] == now.calls[i].choice());
    }
    assert forall|i: int, j: int|
        0 <= i < now.calls.len() && 0 <= j < now.calls.len() && i != j && (
        #[trigger] now.calls[i]).has_chosen() && (#[trigger] now.calls[j]).has_chosen() implies now.calls[i].choice()
        != now.calls[j].choice() by {
        assert(now.order.contains(i) && now.order.contains(j));
        let s: int = choose|s: int| 0 <= s < now.order.len() && now.order[s] == i;
        let u: int = choose|u: int| 0 <= u < now.order.len() && now.order[u] == j;
        assert(choices[s] == now.calls[i].choice());
        assert(choices[u] == now.calls[j].choice());
        assert(choices[s] != choices[u]);
    }
    if infos.len() == healthy.len() && (forall|i: int|
        0 <= i < now.calls.len() ==> (#[trigger] now.calls[i]).has_chosen()) {
        assert forall|i: int| 0 <= i < now.calls.len() implies now.order.contains(i) by {
            assert(now.calls[i].has_chosen());
        }
        lemma_all_positions(now.order, now.calls.len());
        assert forall|k: int|
            #![trigger healthy[k]]
            0 <= k < healthy.len() implies exists|i: int|
            0 <= i < now.calls.len() && (#[trigger] now.calls[i]).choice() == Some(healthy[k]) by {
            assert(choices.contains(Some(healthy[k])));
            let s: int = choose|s: int| 0 <= s < choices.len() && choices[s] == Some(healthy[k]);
            assert(now.calls[now.order[s]].choice() == Some(healthy[k]));
        }
    }
}

/// Different positions below `n` are no more than `n`.
proof fn lemma_positions(order: Seq<int>, n: nat)
    requires
        order.no_duplicates(),
        forall|t: int| 0 <= t < order.len() ==> 0 <= #[trigger] order[t] < n,
    ensures
        order.len() <= n,
{
    order.unique_seq_to_set();
    vstd::set_lib::lemma_int_range(0, n as int);
    vstd::set_lib::lemma_len_subset(order.to_set(), vstd::set_lib::set_int_range(0, n as int));
}

/// All positions below `n` are no fewer than `n`.
proof fn lemma_all_positions(order: Seq<int>, n: nat)
    requires
        order.no_duplicates(),
        forall|i: int| 0 <= i < n ==> order.contains(i),
    ensures
        order.len() >= n,
{
    order.unique_seq_to_set();
    vstd::seq_lib::seq_to_set_is_finite(order);
    vstd::set_lib::lemma_int_range(0, n as int);
    vstd::set_lib::lemma_len_subset(vstd::set_lib::set_int_range(0, n as int), order.to_set());
}

} // verus!
