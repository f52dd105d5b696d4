//! Workers, designations and the per-tick scheduling of errands.

use crate::errand::{
    activated, contains_entity, entry_holds, has_failed, Errand, ErrandKind, FailureCondition, Reservation,
    WorkingOnErrand, type_order,
};
use crate::errand_queue::{seq_holds, surviving, ErrandQueue};
use crate::priorities::{gained, lemma_position_of, lost, position_of, reranked, WorkerPriorities};
use crate::world::{distance_squared, EntityId, WorldPosition};
use itertools::Itertools;
use vstd::prelude::*;

verus! {

/// A worker: its place, its queue, its active errand and its table of kinds.
pub struct Worker {
    pub entity: EntityId,
    pub position: WorldPosition,
    pub queue: ErrandQueue,
    pub working: Option<WorkingOnErrand>,
    pub priorities: WorkerPriorities,
}

/// A job posting on an object: the errand any one worker may claim there.
#[derive(Clone, Copy, Debug, PartialEq, Eq, Structural)]
pub struct Designation {
    pub id: u64,
    pub entity: EntityId,
    pub position: WorldPosition,
    pub errand: Errand,
}

impl Designation {
    /// Whether this designation offers an errand of `kind`.
    pub fn is_errand(&self, kind: ErrandKind) -> (r: bool)
        ensures
            r == (self.errand.spec_kind() == kind),
    {
        self.errand.kind() == kind
    }
}

/// Whether the working state `w` owns a reservation of designation `d`.
pub open spec fn working_holds(w: Option<WorkingOnErrand>, d: u64) -> bool {
    w.is_some() && w.unwrap().reservation.is_some() && w.unwrap().reservation.unwrap().designation == d
}

/// Whether worker `w` owns a reservation of designation `d`, in its queue
/// or in its active errand.
pub open spec fn worker_holds(w: Worker, d: u64) -> bool {
    seq_holds(w.queue.entries(), d) || working_holds(w.working, d)
}

/// Whether the worker has nothing queued and nothing active.
pub open spec fn is_idle(w: Worker) -> bool {
    w.queue.entries().len() == 0 && w.working.is_none()
}

impl Worker {
    /// The queue and table are well formed, the active errand's id came from
    /// this queue, and every entry that owns a reservation fails once that
    /// designation is gone.
    pub open spec fn wf(self) -> bool {
        &&& self.queue.wf()
        &&& self.priorities.wf()
        &&& (self.working.is_some() ==> self.working.unwrap().id < self.queue.spec_next_id())
        &&& forall|k: int|
            0 <= k < self.queue.entries().len() && (#[trigger] self.queue.entries()[k]).reservation.is_some() ==>
                self.queue.entries()[k].fail_on@.contains(
                    FailureCondition::TargetErrandCancelled(self.queue.entries()[k].reservation.unwrap().designation),
                )
    }
}

/// The ids of `s`, in order.
pub open spec fn ids_of(s: Seq<Designation>) -> Seq<u64> {
    s.map_values(|d: Designation| d.id)
}

/// Whether some worker of `ws` owns a reservation of designation `d`.
pub open spec fn held_by_some(ws: Seq<Worker>, d: u64) -> bool {
    exists|i: int| 0 <= i < ws.len() && #[trigger] worker_holds(ws[i], d)
}

/// No designation is held by two workers of `ws` at once.
pub open spec fn exclusive(ws: Seq<Worker>) -> bool {
    forall|i: int, j: int, d: u64|
        #![trigger worker_holds(ws[i], d), worker_holds(ws[j], d)]
        0 <= i < ws.len() && 0 <= j < ws.len() && worker_holds(ws[i], d) && worker_holds(ws[j], d) ==> i == j
}

/// Workers are well formed and distinct, an object has at most one
/// designation, designation ids and held ids are below `next`, and claims
/// are exclusive.
pub open spec fn board_wf(ws: Seq<Worker>, ds: Seq<Designation>, next: u64) -> bool {
    &&& forall|i: int| 0 <= i < ws.len() ==> (#[trigger] ws[i]).wf()
    &&& forall|i: int, j: int| 0 <= i < j < ws.len() ==> (#[trigger] ws[i]).entity != (#[trigger] ws[j]).entity
    &&& forall|k: int, l: int| 0 <= k < l < ds.len() ==> (#[trigger] ds[k]).entity != (#[trigger] ds[l]).entity
    &&& forall|k: int| 0 <= k < ds.len() ==> (#[trigger] ds[k]).id < next
    &&& forall|k: int, l: int| 0 <= k < l < ds.len() ==> (#[trigger] ds[k]).id != (#[trigger] ds[l]).id
    &&& forall|i: int, d: u64| 0 <= i < ws.len() && #[trigger] worker_holds(ws[i], d) ==> d < next
    &&& exclusive(ws)
}

/// Worker `w` owns no reservation that `v` does not own.
pub open spec fn holds_no_more(w: Worker, v: Worker) -> bool {
    forall|d: u64| #[trigger] worker_holds(w, d) ==> worker_holds(v, d)
}

/// Replacing a worker by a well-formed one with the same entity that holds
/// no more keeps the board well formed.
proof fn lemma_replace_worker(ws: Seq<Worker>, ds: Seq<Designation>, next: u64, i: int, w: Worker)
    requires
        board_wf(ws, ds, next),
        0 <= i < ws.len(),
        w.wf(),
        w.entity == ws[i].entity,
        holds_no_more(w, ws[i]),
    ensures
        board_wf(ws.update(i, w), ds, next),
{
    let nws = ws.update(i, w);
    assert forall|a: int, b: int, d: u64|
        #![trigger worker_holds(nws[a], d), worker_holds(nws[b], d)]
        0 <= a < nws.len() && 0 <= b < nws.len() && worker_holds(nws[a], d) && worker_holds(nws[b], d) implies a == b by {
        assert(worker_holds(ws[a], d));
        assert(worker_holds(ws[b], d));
    }
    assert forall|a: int, d: u64| 0 <= a < nws.len() && #[trigger] worker_holds(nws[a], d) implies d < next by {
        assert(worker_holds(ws[a], d));
    }
}

/// `new` is `old` with at most worker `i` changed.
pub open spec fn only_worker_changed(old: Seq<Worker>, new: Seq<Worker>, i: int) -> bool {
    &&& new.len() == old.len()
    &&& forall|j: int| 0 <= j < old.len() && j != i ==> new[j] == old[j]
}

/// The two workers are the same one, at the same place, with the same table.
pub open spec fn same_worker(a: Worker, b: Worker) -> bool {
    &&& a.entity == b.entity
    &&& a.position == b.position
    &&& a.priorities == b.priorities
}

/// A worker whose queue gained a front entry without a reservation holds
/// no more than before and stays well formed.
proof fn lemma_prepended_worker(w0: Worker, w1: Worker)
    requires
        w0.wf(),
        w1.queue.wf(),
        same_worker(w1, w0),
        w1.working == w0.working,
        w1.queue.spec_next_id() == w0.queue.spec_next_id() + 1,
        w1.queue.entries().drop_first() == w0.queue.entries(),
        w1.queue.entries().len() == w0.queue.entries().len() + 1,
        w1.queue.entries().first().reservation.is_none(),
    ensures
        w1.wf(),
        holds_no_more(w1, w0),
{
    assert forall|d: u64| #[trigger] worker_holds(w1, d) implies worker_holds(w0, d) by {
        if seq_holds(w1.queue.entries(), d) {
            let k = choose|k: int| 0 <= k < w1.queue.entries().len() && entry_holds(#[trigger] w1.queue.entries()[k], d);
            assert(w1.queue.entries()[k] == w0.queue.entries()[k - 1]);
        }
    }
    assert forall|k: int|
        0 <= k < w1.queue.entries().len() && (#[trigger] w1.queue.entries()[k]).reservation.is_some() implies
            w1.queue.entries()[k].fail_on@.contains(
                FailureCondition::TargetErrandCancelled(w1.queue.entries()[k].reservation.unwrap().designation),
            ) by {
        assert(w1.queue.entries()[k] == w0.queue.entries()[k - 1]);
    }
}

/// Completion for one worker: a finished active errand is dropped, and its
/// entry is popped if it is still at the front of the queue.
pub open spec fn finished_step(w0: Worker, w1: Worker) -> bool {
    match w0.working {
        Some(x) => if x.spec_finished() {
            &&& same_worker(w1, w0)
            &&& w1.working.is_none()
            &&& w1.queue.spec_next_id() == w0.queue.spec_next_id()
            &&& w1.queue.entries() == if w0.queue.entries().len() > 0 && w0.queue.entries()[0].id == x.id {
                w0.queue.entries().drop_first()
            } else {
                w0.queue.entries()
            }
        } else {
            w1 == w0
        },
        None => w1 == w0,
    }
}

/// Failure sweep for one worker: entries whose conditions came true leave
/// the queue.
pub open spec fn sweep_step(w0: Worker, w1: Worker, live_entities: Seq<EntityId>, live_designations: Seq<u64>) -> bool {
    &&& same_worker(w1, w0)
    &&& w1.working == w0.working
    &&& w1.queue.spec_next_id() == w0.queue.spec_next_id()
    &&& w1.queue.entries() == surviving(w0.queue.entries(), live_entities, live_designations)
}

/// Reconciliation for one worker: an active errand that is no longer the
/// front of the queue is dropped without being completed.
pub open spec fn overwritten_step(w0: Worker, w1: Worker) -> bool {
    match w0.working {
        Some(x) => if w0.queue.entries().len() > 0 && w0.queue.entries()[0].id == x.id {
            w1 == w0
        } else {
            w1 == Worker { working: None, ..w0 }
        },
        None => w1 == w0,
    }
}

/// Activation for one worker: a worker without an active errand starts the
/// front of its queue.
pub open spec fn activation_step(w0: Worker, w1: Worker) -> bool {
    if w0.working.is_none() && w0.queue.entries().len() > 0 {
        w1 == Worker { working: Some(activated(w0.queue.entries()[0])), ..w0 }
    } else {
        w1 == w0
    }
}

/// One tick for one worker, from `w0` to `w5`, with `ds` the designations
/// that remain: completion, failure sweep, reconciliation, assignment (a
/// worker with something queued or active is left alone; an idle one stays
/// as it is or claims one of `ds` its table allows) and activation.
pub open spec fn tick_step(w0: Worker, w5: Worker, live_entities: Seq<EntityId>, ds: Seq<Designation>) -> bool {
    exists|w1: Worker, w2: Worker, w3: Worker, w4: Worker|
        #![trigger finished_step(w0, w1), sweep_step(w1, w2, live_entities, ids_of(ds)), overwritten_step(w2, w3), activation_step(w4, w5)]
        {
            &&& finished_step(w0, w1)
            &&& sweep_step(w1, w2, live_entities, ids_of(ds))
            &&& overwritten_step(w2, w3)
            &&& (!is_idle(w3) ==> w4 == w3)
            &&& (is_idle(w3) ==> w4 == w3 || exists|k: int| 0 <= k < ds.len() && eligible(w3, ds[k]) && claim_step(w3, w4, ds[k]))
            &&& activation_step(w4, w5)
        }
}

/// The designations of `ds` on objects that still exist.
pub open spec fn on_live_objects(ds: Seq<Designation>, live_entities: Seq<EntityId>) -> Seq<Designation> {
    ds.filter(|d: Designation| live_entities.contains(d.entity))
}

/// Whether worker `w`'s table lets it take designation `d`: the kind is
/// there, available, with a rank.
pub open spec fn eligible(w: Worker, d: Designation) -> bool {
    let s = w.priorities.entries();
    let p = position_of(s, d.errand.spec_kind());
    p < s.len() && s[p].available && s[p].priority.is_some()
}

/// The order in which worker `w` tries designation `k` of `ds`: by rank,
/// then by the kinds' global order, then nearest first, then by position.
pub open spec fn candidate_key(w: Worker, ds: Seq<Designation>, k: int) -> (u8, i32, u128, usize) {
    let s = w.priorities.entries();
    let kind = ds[k].errand.spec_kind();
    (
        s[position_of(s, kind)].priority.unwrap(),
        type_order(kind),
        distance_squared(w.position, ds[k].position) as u128,
        k as usize,
    )
}

/// Lexicographic order on candidate keys.
pub open spec fn key_le(a: (u8, i32, u128, usize), b: (u8, i32, u128, usize)) -> bool {
    a.0 < b.0 || (a.0 == b.0 && (a.1 < b.1 || (a.1 == b.1 && (a.2 < b.2 || (a.2 == b.2 && a.3 <= b.3)))))
}

/// Whether worker `ws[i]` could claim designation `ds[k]` now.
pub open spec fn claimable(ws: Seq<Worker>, ds: Seq<Designation>, i: int, k: int) -> bool {
    0 <= k < ds.len() && eligible(ws[i], ds[k]) && !held_by_some(ws, ds[k].id)
}

/// `w1` is worker `w0` after claiming `d`: a new last entry for `d`'s
/// errand, owning the reservation, failing once `d` or its object is gone.
pub open spec fn claim_appended(w0: Worker, w1: Worker, d: Designation) -> bool {
    let n = w0.queue.entries().len() as int;
    &&& same_worker(w1, w0)
    &&& w1.working == w0.working
    &&& w1.queue.spec_next_id() == w0.queue.spec_next_id() + 1
    &&& w1.queue.entries().len() == n + 1
    &&& w1.queue.entries().drop_last() == w0.queue.entries()
    &&& w1.queue.entries()[n].id == w0.queue.spec_next_id()
    &&& w1.queue.entries()[n].errand == d.errand
    &&& w1.queue.entries()[n].reservation == Some(Reservation { designation: d.id, reserved_by: w0.entity })
    &&& w1.queue.entries()[n].fail_on@ == seq![
        FailureCondition::TargetErrandCancelled(d.id),
        FailureCondition::TargetRemoved(d.entity),
    ]
}

/// `w1` is the idle worker `w0` after claiming `d`: one entry for `d`'s
/// errand, owning the reservation, failing once `d` or its object is gone.
pub open spec fn claim_step(w0: Worker, w1: Worker, d: Designation) -> bool {
    &&& same_worker(w1, w0)
    &&& w1.working == w0.working
    &&& w1.queue.spec_next_id() == w0.queue.spec_next_id() + 1
    &&& w1.queue.entries().len() == 1
    &&& w1.queue.entries()[0].id == w0.queue.spec_next_id()
    &&& w1.queue.entries()[0].errand == d.errand
    &&& w1.queue.entries()[0].reservation == Some(Reservation { designation: d.id, reserved_by: w0.entity })
    &&& w1.queue.entries()[0].fail_on@ == seq![
        FailureCondition::TargetErrandCancelled(d.id),
        FailureCondition::TargetRemoved(d.entity),
    ]
}

/// Worker `i` went from `before[i]` to `after[i]` by claiming `ds[k]`, and
/// every other designation it could take and prefers at least as much was
/// held already: by a worker of `before`, or by a worker ahead of it in
/// `after`, which chose first.
pub open spec fn preferred_claim(before: Seq<Worker>, after: Seq<Worker>, ds: Seq<Designation>, i: int, k: int) -> bool {
    &&& 0 <= k < ds.len()
    &&& eligible(before[i], ds[k])
    &&& claim_step(before[i], after[i], ds[k])
    &&& forall|k2: int|
        0 <= k2 < ds.len() && k2 != k && eligible(before[i], ds[k2]) && #[trigger] key_le(
            candidate_key(before[i], ds, k2),
            candidate_key(before[i], ds, k),
        ) ==> held_by_some(before, ds[k2].id) || exists|j: int| 0 <= j < i && #[trigger] worker_holds(after[j], ds[k2].id)
}

/// Relies on itertools::Itertools::sorted, which collects the items and
/// sorts them with std's stable sort: the same items, ascending in std's
/// order on tuples, which compares field by field.
#[verifier::external_body]
fn sorted_candidates(v: Vec<(u8, i32, u128, usize)>) -> (r: Vec<(u8, i32, u128, usize)>)
    ensures
        r@.to_multiset() == v@.to_multiset(),
        forall|a: int, b: int| 0 <= a < b < r@.len() ==> key_le(r@[a], r@[b]),
{
    v.into_iter().sorted().collect()
}

proof fn lemma_unique_kind(w: Worker, p: int)
    requires
        w.priorities.wf(),
        0 <= p < w.priorities.entries().len(),
    ensures
        position_of(w.priorities.entries(), w.priorities.entries()[p].errand_kind) == p,
{
    let s = w.priorities.entries();
    let kind = s[p].errand_kind;
    lemma_position_of(s, kind);
    let q = position_of(s, kind);
    if q < p {
        assert(s[q].errand_type_order < s[p].errand_type_order);
    }
}

/// A worker that comes to hold, besides what it held, one designation
/// nobody held keeps the board well formed.
proof fn lemma_claim_keeps_wf(ws: Seq<Worker>, ds: Seq<Designation>, next: u64, i: int, w: Worker, d: u64)
    requires
        board_wf(ws, ds, next),
        0 <= i < ws.len(),
        w.wf(),
        w.entity == ws[i].entity,
        forall|dd: u64| #[trigger] worker_holds(w, dd) ==> dd == d || worker_holds(ws[i], dd),
        !held_by_some(ws, d),
        d < next,
    ensures
        board_wf(ws.update(i, w), ds, next),
{
    let nws = ws.update(i, w);
    assert forall|a: int, b: int, dd: u64|
        #![trigger worker_holds(nws[a], dd), worker_holds(nws[b], dd)]
        0 <= a < nws.len() && 0 <= b < nws.len() && worker_holds(nws[a], dd) && worker_holds(nws[b], dd) implies a == b by {
        if a != i && b != i {
            assert(worker_holds(ws[a], dd));
            assert(worker_holds(ws[b], dd));
        } else if a == i && b != i {
            assert(worker_holds(ws[b], dd));
            if dd != d {
                assert(worker_holds(ws[a], dd));
            }
        } else if a != i && b == i {
            assert(worker_holds(ws[a], dd));
            if dd != d {
                assert(worker_holds(ws[b], dd));
            }
        }
    }
    assert forall|a: int, dd: u64| 0 <= a < nws.len() && #[trigger] worker_holds(nws[a], dd) implies dd < next by {
        if a != i || dd != d {
            assert(worker_holds(ws[a], dd));
        }
    }
}

/// At most one claim: on a well-formed board (every operation keeps it so),
/// two workers that hold a reservation of the same designation are the same
/// worker.
pub proof fn lemma_at_most_one_claim(board: ErrandBoard, d: u64, i: int, j: int)
    requires
        board.wf(),
        0 <= i < board.workers().len(),
        0 <= j < board.workers().len(),
        worker_holds(board.workers()[i], d),
        worker_holds(board.workers()[j], d),
    ensures
        i == j,
{
}

/// At most one claim, at the claim itself: after a successful `claim` of
/// designation `k` by worker `i`, worker `i` holds it and no other worker
/// does.
pub proof fn lemma_claimer_is_sole_holder(before: ErrandBoard, after: ErrandBoard, i: int, k: int)
    requires
        after.wf(),
        0 <= i < after.workers().len(),
        0 <= k < before.designations().len(),
        claim_appended(before.workers()[i], after.workers()[i], before.designations()[k]),
    ensures
        forall|j: int| 0 <= j < after.workers().len() ==> (#[trigger] worker_holds(after.workers()[j], before.designations()[k].id) <==> j == i),
{
    let d = before.designations()[k].id;
    let w = after.workers()[i];
    let n = before.workers()[i].queue.entries().len() as int;
    assert(entry_holds(w.queue.entries()[n], d));
    assert(worker_holds(w, d));
}

/// Release on drop: once designation `d` is no longer among the live
/// designations, one failure sweep leaves no queue entry holding it.
pub proof fn lemma_claim_released_on_drop(w0: Worker, w1: Worker, live_entities: Seq<EntityId>, live_designations: Seq<u64>, d: u64)
    requires
        w0.wf(),
        !live_designations.contains(d),
        sweep_step(w0, w1, live_entities, live_designations),
    ensures
        !seq_holds(w1.queue.entries(), d),
{
    let pred = |q: crate::errand::QueuedErrand| !has_failed(q, live_entities, live_designations);
    if seq_holds(w1.queue.entries(), d) {
        let k = choose|k: int| 0 <= k < w1.queue.entries().len() && entry_holds(#[trigger] w1.queue.entries()[k], d);
        let q = w1.queue.entries()[k];
        assert(w1.queue.entries().contains(q));
        w0.queue.entries().lemma_filter_contains_rev(pred, q);
        let m = choose|m: int| 0 <= m < w0.queue.entries().len() && w0.queue.entries()[m] == q;
        assert(w0.queue.entries()[m] == q);
        let c = FailureCondition::TargetErrandCancelled(d);
        assert(q.fail_on@.contains(c));
        let n = choose|n: int| 0 <= n < q.fail_on@.len() && q.fail_on@[n] == c;
        assert(crate::errand::condition_met(q.fail_on@[n], live_entities, live_designations));
        assert(has_failed(q, live_entities, live_designations));
        let r = choose|r: int| 0 <= r < w1.queue.entries().len() && w1.queue.entries()[r] == q;
        w0.queue.entries().lemma_filter_pred(pred, r);
        assert(pred(w1.queue.entries()[r]));
    }
}

/// A designation whose object no longer exists is not among the
/// designations that the failure sweep keeps.
pub proof fn lemma_dead_object_drops_designation(ds: Seq<Designation>, next: u64, ws: Seq<Worker>, live_entities: Seq<EntityId>, k: int)
    requires
        board_wf(ws, ds, next),
        0 <= k < ds.len(),
        !live_entities.contains(ds[k].entity),
    ensures
        !ids_of(on_live_objects(ds, live_entities)).contains(ds[k].id),
{
    let pred = |d: Designation| live_entities.contains(d.entity);
    let kept = on_live_objects(ds, live_entities);
    if ids_of(kept).contains(ds[k].id) {
        let a = choose|a: int| 0 <= a < ids_of(kept).len() && ids_of(kept)[a] == ds[k].id;
        assert(kept.contains(kept[a]));
        ds.lemma_filter_contains_rev(pred, kept[a]);
        let j = choose|j: int| 0 <= j < ds.len() && ds[j] == kept[a];
        ds.lemma_filter_pred(pred, a);
        assert(pred(kept[a]));
        assert(j != k);
    }
}

/// A withdrawn designation's id is no longer among the designations' ids.
pub proof fn lemma_withdrawn_designation_not_live(ws: Seq<Worker>, ds: Seq<Designation>, next: u64, k: int)
    requires
        board_wf(ws, ds, next),
        0 <= k < ds.len(),
    ensures
        !ids_of(ds.remove(k)).contains(ds[k].id),
{
    let rest = ds.remove(k);
    if ids_of(rest).contains(ds[k].id) {
        let a = choose|a: int| 0 <= a < ids_of(rest).len() && ids_of(rest)[a] == ds[k].id;
        let a0 = if a < k { a } else { a + 1 };
        assert(rest[a] == ds[a0]);
    }
}

/// A replaced designation's id is no longer among the designations' ids:
/// its replacement has a fresh one.
pub proof fn lemma_replaced_designation_not_live(ws: Seq<Worker>, ds: Seq<Designation>, next: u64, k: int, d: Designation)
    requires
        board_wf(ws, ds, next),
        0 <= k < ds.len(),
        d.id == next,
    ensures
        !ids_of(ds.update(k, d)).contains(ds[k].id),
{
    let now = ds.update(k, d);
    if ids_of(now).contains(ds[k].id) {
        let a = choose|a: int| 0 <= a < ids_of(now).len() && ids_of(now)[a] == ds[k].id;
        assert(a != k);
        assert(now[a] == ds[a]);
    }
}

/// Release on drop, over a whole tick: once designation `d` is gone from
/// the designations that remain, no queue entry holds it after the tick,
/// whatever the worker was doing.
pub proof fn lemma_tick_releases_dropped_designation(
    w0: Worker,
    w5: Worker,
    live_entities: Seq<EntityId>,
    ds: Seq<Designation>,
    d: u64,
)
    requires
        w0.wf(),
        !ids_of(ds).contains(d),
        tick_step(w0, w5, live_entities, ds),
    ensures
        !seq_holds(w5.queue.entries(), d),
{
    let (w1, w2, w3, w4) = choose|w1: Worker, w2: Worker, w3: Worker, w4: Worker|
        #![trigger finished_step(w0, w1), sweep_step(w1, w2, live_entities, ids_of(ds)), overwritten_step(w2, w3), activation_step(w4, w5)]
        {
            &&& finished_step(w0, w1)
            &&& sweep_step(w1, w2, live_entities, ids_of(ds))
            &&& overwritten_step(w2, w3)
            &&& (!is_idle(w3) ==> w4 == w3)
            &&& (is_idle(w3) ==> w4 == w3 || exists|k: int| 0 <= k < ds.len() && eligible(w3, ds[k]) && claim_step(w3, w4, ds[k]))
            &&& activation_step(w4, w5)
        };
    let pred = |q: crate::errand::QueuedErrand| !has_failed(q, live_entities, ids_of(ds));
    assert forall|m: int| 0 <= m < w2.queue.entries().len() implies !entry_holds(#[trigger] w2.queue.entries()[m], d) by {
        let q = w2.queue.entries()[m];
        w1.queue.entries().lemma_filter_pred(pred, m);
        assert(w2.queue.entries().contains(q));
        w1.queue.entries().lemma_filter_contains_rev(pred, q);
        let a = choose|a: int| 0 <= a < w1.queue.entries().len() && w1.queue.entries()[a] == q;
        let b = if w1.queue.entries() == w0.queue.entries() { a } else { a + 1 };
        assert(w1.queue.entries()[a] == w0.queue.entries()[b]);
        if entry_holds(q, d) {
            let c = FailureCondition::TargetErrandCancelled(d);
            assert(q.fail_on@.contains(c));
            let n = choose|n: int| 0 <= n < q.fail_on@.len() && q.fail_on@[n] == c;
            assert(crate::errand::condition_met(q.fail_on@[n], live_entities, ids_of(ds)));
        }
    }
    assert(!seq_holds(w3.queue.entries(), d));
    if w4 != w3 {
        let k = choose|k: int| 0 <= k < ds.len() && eligible(w3, ds[k]) && claim_step(w3, w4, ds[k]);
        if ds[k].id == d {
            assert(ids_of(ds)[k] == d);
        }
        assert(!entry_holds(w4.queue.entries()[0], d));
    }
    assert(w5.queue.entries() == w4.queue.entries());
}

/// Overwrite discards: a worker active on errand `x` whose queue is cleared
/// and given `y` (so that `y`'s entry, with a fresh id, is all it has
/// queued) does not complete `x` in the next tick: reconciliation drops
/// `x`, and `y` becomes active.
pub proof fn lemma_overwrite_discards(
    wx: Worker,
    w0: Worker,
    w5: Worker,
    live_entities: Seq<EntityId>,
    ds: Seq<Designation>,
)
    requires
        wx.wf(),
        wx.working.is_some(),
        !wx.working.unwrap().spec_finished(),
        w0.working == wx.working,
        w0.queue.entries().len() == 1,
        w0.queue.entries()[0].id == wx.queue.spec_next_id(),
        !has_failed(w0.queue.entries()[0], live_entities, ids_of(ds)),
        tick_step(w0, w5, live_entities, ds),
    ensures
        w5.queue.entries() == w0.queue.entries(),
        w5.working == Some(activated(w0.queue.entries()[0])),
{
    let live_designations = ids_of(ds);
    let (w1, w2, w3, w4) = choose|w1: Worker, w2: Worker, w3: Worker, w4: Worker|
        #![trigger finished_step(w0, w1), sweep_step(w1, w2, live_entities, ids_of(ds)), overwritten_step(w2, w3), activation_step(w4, w5)]
        {
            &&& finished_step(w0, w1)
            &&& sweep_step(w1, w2, live_entities, ids_of(ds))
            &&& overwritten_step(w2, w3)
            &&& (!is_idle(w3) ==> w4 == w3)
            &&& (is_idle(w3) ==> w4 == w3 || exists|k: int| 0 <= k < ds.len() && eligible(w3, ds[k]) && claim_step(w3, w4, ds[k]))
            &&& activation_step(w4, w5)
        };
    reveal(Seq::filter);
    let s = w1.queue.entries();
    assert(w1 == w0);
    assert(s.drop_last() =~= Seq::<crate::errand::QueuedErrand>::empty());
    assert(Seq::<crate::errand::QueuedErrand>::empty().filter(
        |q: crate::errand::QueuedErrand| !has_failed(q, live_entities, live_designations),
    ) =~= Seq::<crate::errand::QueuedErrand>::empty());
    assert(w2.queue.entries() =~= s);
    assert(w3.working.is_none());
}

/// Every worker and every designation of the world, with the id the next
/// designation will get.
///
/// Whether a designation is claimed is never stored: it is claimed exactly
/// while some queue entry or active errand owns a reservation of its id.
/// Dropping the entry (completion, failure, clearing the queue) releases
/// the claim, and dropping the designation makes every entry that owns a
/// reservation of it fail at the next sweep. Designation ids are never
/// reused, so a replaced designation's old claims cannot be mistaken for
/// claims of the new one.
pub struct ErrandBoard {
    workers: Vec<Worker>,
    designations: Vec<Designation>,
    next_designation_id: u64,
}

impl ErrandBoard {
    pub closed spec fn workers(&self) -> Seq<Worker> {
        self.workers@
    }

    pub closed spec fn designations(&self) -> Seq<Designation> {
        self.designations@
    }

    pub closed spec fn spec_next_designation_id(&self) -> u64 {
        self.next_designation_id
    }

    /// Whether some worker owns a reservation of designation `d`.
    pub open spec fn claimed(&self, d: u64) -> bool {
        held_by_some(self.workers(), d)
    }

    /// No designation is held by two workers at once.
    pub open spec fn claims_exclusive(&self) -> bool {
        exclusive(self.workers())
    }

    pub open spec fn wf(&self) -> bool {
        board_wf(self.workers(), self.designations(), self.spec_next_designation_id())
    }

    pub fn new() -> (r: Self)
        ensures
            r.wf(),
            r.workers().len() == 0,
            r.designations().len() == 0,
    {
        Self { workers: Vec::new(), designations: Vec::new(), next_designation_id: 1 }
    }

    pub fn worker_count(&self) -> (r: usize)
        ensures
            r == self.workers().len(),
    {
        self.workers.len()
    }

    pub fn worker(&self, i: usize) -> (r: &Worker)
        requires
            i < self.workers().len(),
        ensures
            *r == self.workers()[i as int],
    {
        &self.workers[i]
    }

    pub fn designation_count(&self) -> (r: usize)
        ensures
            r == self.designations().len(),
    {
        self.designations.len()
    }

    pub fn designation(&self, k: usize) -> (r: Designation)
        requires
            k < self.designations().len(),
        ensures
            r == self.designations()[k as int],
    {
        self.designations[k]
    }

    /// Position of the worker `entity`, if it is on the board.
    pub fn find_worker(&self, entity: EntityId) -> (r: Option<usize>)
        ensures
            r.is_some() == (exists|i: int| 0 <= i < self.workers().len() && (#[trigger] self.workers()[i]).entity == entity),
            r.is_some() ==> r.unwrap() < self.workers().len() && self.workers()[r.unwrap() as int].entity == entity,
    {
        let mut i: usize = 0;
        while i < self.workers.len()
            invariant
                i <= self.workers().len(),
                forall|k: int| 0 <= k < i ==> (#[trigger] self.workers()[k]).entity != entity,
            decreases self.workers().len() - i,
        {
            if self.workers[i].entity == entity {
                return Some(i);
            }
            i = i + 1;
        }
        None
    }

    /// Position of the designation on object `entity`, if there is one.
    pub fn find_designation(&self, entity: EntityId) -> (r: Option<usize>)
        ensures
            r.is_some() == (exists|k: int| 0 <= k < self.designations().len() && (#[trigger] self.designations()[k]).entity == entity),
            r.is_some() ==> r.unwrap() < self.designations().len() && self.designations()[r.unwrap() as int].entity == entity,
    {
        let mut i: usize = 0;
        while i < self.designations.len()
            invariant
                i <= self.designations().len(),
                forall|k: int| 0 <= k < i ==> (#[trigger] self.designations()[k]).entity != entity,
            decreases self.designations().len() - i,
        {
            if self.designations[i].entity == entity {
                return Some(i);
            }
            i = i + 1;
        }
        None
    }


    /// Puts the worker `entity` on the board at `position`, idle and without
    /// capabilities, unless it is there already; returns its position.
    pub fn add_worker(&mut self, entity: EntityId, position: WorldPosition) -> (r: usize)
        requires
            old(self).wf(),
        ensures
            final(self).wf(),
            final(self).designations() == old(self).designations(),
            final(self).spec_next_designation_id() == old(self).spec_next_designation_id(),
            r < final(self).workers().len(),
            final(self).workers()[r as int].entity == entity,
            (exists|i: int| 0 <= i < old(self).workers().len() && (#[trigger] old(self).workers()[i]).entity == entity)
                ==> final(self).workers() == old(self).workers(),
            !(exists|i: int| 0 <= i < old(self).workers().len() && (#[trigger] old(self).workers()[i]).entity == entity) ==> {
                &&& r == old(self).workers().len()
                &&& final(self).workers().drop_last() == old(self).workers()
                &&& final(self).workers()[r as int].position == position
                &&& is_idle(final(self).workers()[r as int])
                &&& final(self).workers()[r as int].priorities.entries().len() == 0
            },
    {
        match self.find_worker(entity) {
            Some(i) => i,
            None => {
                let ghost ws = self.workers@;
                let w = Worker {
                    entity,
                    position,
                    queue: ErrandQueue::new(),
                    working: None,
                    priorities: WorkerPriorities::new(),
                };
                proof {
                    assert forall|d: u64| !worker_holds(w, d) by {
                        if seq_holds(w.queue.entries(), d) {
                            let k = choose|k: int| 0 <= k < w.queue.entries().len() && entry_holds(#[trigger] w.queue.entries()[k], d);
                        }
                    }
                }
                self.workers.push(w);
                let r = self.workers.len() - 1;
                proof {
                    let nws = self.workers@;
                    assert(nws.drop_last() =~= ws);
                    assert forall|a: int, b: int, d: u64|
                        #![trigger worker_holds(nws[a], d), worker_holds(nws[b], d)]
                        0 <= a < nws.len() && 0 <= b < nws.len() && worker_holds(nws[a], d) && worker_holds(nws[b], d) implies a == b by {
                        if a < ws.len() && b < ws.len() {
                            assert(nws[a] == ws[a] && nws[b] == ws[b]);
                        }
                    }
                    assert forall|a: int, d: u64| 0 <= a < nws.len() && #[trigger] worker_holds(nws[a], d)
                        implies d < self.next_designation_id by {
                        assert(nws[a] == ws[a]);
                    }
                    assert forall|a: int, b: int| 0 <= a < b < nws.len() implies (#[trigger] nws[a]).entity != (#[trigger] nws[b]).entity by {
                        if b == nws.len() - 1 {
                            assert(nws[a] == ws[a]);
                        }
                    }
                }
                r
            },
        }
    }

    /// Moves worker `i` to `position`.
    pub fn set_worker_position(&mut self, i: usize, position: WorldPosition)
        requires
            old(self).wf(),
            i < old(self).workers().len(),
        ensures
            final(self).wf(),
            final(self).designations() == old(self).designations(),
            final(self).spec_next_designation_id() == old(self).spec_next_designation_id(),
            only_worker_changed(old(self).workers(), final(self).workers(), i as int),
            final(self).workers()[i as int] == (Worker { position, ..old(self).workers()[i as int] }),
    {
        let ghost ws = self.workers@;
        self.workers[i].position = position;
        proof {
            lemma_replace_worker(ws, self.designations@, self.next_designation_id, i as int, self.workers@[i as int]);
            assert(self.workers@ =~= ws.update(i as int, self.workers@[i as int]));
        }
    }

    /// Queues `errand` at the back of worker `i`'s queue.
    pub fn append_errand(&mut self, i: usize, errand: Errand)
        requires
            old(self).wf(),
            i < old(self).workers().len(),
            old(self).workers()[i as int].queue.has_room(),
        ensures
            final(self).wf(),
            final(self).designations() == old(self).designations(),
            final(self).spec_next_designation_id() == old(self).spec_next_designation_id(),
            only_worker_changed(old(self).workers(), final(self).workers(), i as int),
            same_worker(final(self).workers()[i as int], old(self).workers()[i as int]),
            final(self).workers()[i as int].working == old(self).workers()[i as int].working,
            ({
                let (q0, q1) = (old(self).workers()[i as int].queue, final(self).workers()[i as int].queue);
                &&& q1.spec_next_id() == q0.spec_next_id() + 1
                &&& q1.entries().drop_last() == q0.entries()
                &&& q1.entries().len() == q0.entries().len() + 1
                &&& q1.entries().last().id == q0.spec_next_id()
                &&& q1.entries().last().errand == errand
                &&& q1.entries().last().reservation.is_none()
                &&& q1.entries().last().fail_on@ == errand.spec_on_enqueued()
            }),
    {
        let ghost ws = self.workers@;
        self.workers[i].queue.append_independent_errand(errand);
        proof {
            let (w0, w1) = (ws[i as int], self.workers@[i as int]);
            assert forall|d: u64| #[trigger] worker_holds(w1, d) implies worker_holds(w0, d) by {
                if seq_holds(w1.queue.entries(), d) {
                    let k = choose|k: int| 0 <= k < w1.queue.entries().len() && entry_holds(#[trigger] w1.queue.entries()[k], d);
                    assert(w1.queue.entries()[k] == w0.queue.entries()[k]);
                }
            }
            assert forall|k: int|
                0 <= k < w1.queue.entries().len() && (#[trigger] w1.queue.entries()[k]).reservation.is_some() implies
                    w1.queue.entries()[k].fail_on@.contains(
                        FailureCondition::TargetErrandCancelled(w1.queue.entries()[k].reservation.unwrap().designation),
                    ) by {
                assert(w1.queue.entries()[k] == w0.queue.entries()[k]);
            }
            lemma_replace_worker(ws, self.designations@, self.next_designation_id, i as int, w1);
            assert(self.workers@ =~= ws.update(i as int, w1));
        }
    }

    /// Queues `errand` at the front of worker `i`'s queue, ahead of the
    /// errand it is on.
    pub fn prepend_errand(&mut self, i: usize, errand: Errand)
        requires
            old(self).wf(),
            i < old(self).workers().len(),
            old(self).workers()[i as int].queue.has_room(),
        ensures
            final(self).wf(),
            final(self).designations() == old(self).designations(),
            final(self).spec_next_designation_id() == old(self).spec_next_designation_id(),
            only_worker_changed(old(self).workers(), final(self).workers(), i as int),
            same_worker(final(self).workers()[i as int], old(self).workers()[i as int]),
            final(self).workers()[i as int].working == old(self).workers()[i as int].working,
            ({
                let (q0, q1) = (old(self).workers()[i as int].queue, final(self).workers()[i as int].queue);
                &&& q1.spec_next_id() == q0.spec_next_id() + 1
                &&& q1.entries().drop_first() == q0.entries()
                &&& q1.entries().len() == q0.entries().len() + 1
                &&& q1.entries().first().id == q0.spec_next_id()
                &&& q1.entries().first().errand == errand
                &&& q1.entries().first().reservation.is_none()
                &&& q1.entries().first().fail_on@ == errand.spec_on_enqueued()
            }),
    {
        let ghost ws = self.workers@;
        self.workers[i].queue.prepend_errand(errand);
        proof {
            lemma_prepended_worker(ws[i as int], self.workers@[i as int]);
            lemma_replace_worker(ws, self.designations@, self.next_designation_id, i as int, self.workers@[i as int]);
            assert(self.workers@ =~= ws.update(i as int, self.workers@[i as int]));
        }
    }

    /// Queues `errand` at the front of worker `i`'s queue, failing also
    /// once `target` no longer exists.
    pub fn prepend_errand_for_target(&mut self, i: usize, errand: Errand, target: EntityId)
        requires
            old(self).wf(),
            i < old(self).workers().len(),
            old(self).workers()[i as int].queue.has_room(),
        ensures
            final(self).wf(),
            final(self).designations() == old(self).designations(),
            final(self).spec_next_designation_id() == old(self).spec_next_designation_id(),
            only_worker_changed(old(self).workers(), final(self).workers(), i as int),
            same_worker(final(self).workers()[i as int], old(self).workers()[i as int]),
            final(self).workers()[i as int].working == old(self).workers()[i as int].working,
            ({
                let (q0, q1) = (old(self).workers()[i as int].queue, final(self).workers()[i as int].queue);
                &&& q1.spec_next_id() == q0.spec_next_id() + 1
                &&& q1.entries().drop_first() == q0.entries()
                &&& q1.entries().len() == q0.entries().len() + 1
                &&& q1.entries().first().id == q0.spec_next_id()
                &&& q1.entries().first().errand == errand
                &&& q1.entries().first().reservation.is_none()
                &&& q1.entries().first().fail_on@ == errand.spec_on_enqueued().push(FailureCondition::TargetRemoved(target))
            }),
    {
        let ghost ws = self.workers@;
        self.workers[i].queue.prepend_errand_for_target(errand, target);
        proof {
            lemma_prepended_worker(ws[i as int], self.workers@[i as int]);
            lemma_replace_worker(ws, self.designations@, self.next_designation_id, i as int, self.workers@[i as int]);
            assert(self.workers@ =~= ws.update(i as int, self.workers@[i as int]));
        }
    }

    /// Empties worker `i`'s queue, releasing the reservations its entries
    /// owned. An active errand stays until reconciliation drops it.
    pub fn clear_queue(&mut self, i: usize)
        requires
            old(self).wf(),
            i < old(self).workers().len(),
        ensures
            final(self).wf(),
            final(self).designations() == old(self).designations(),
            final(self).spec_next_designation_id() == old(self).spec_next_designation_id(),
            only_worker_changed(old(self).workers(), final(self).workers(), i as int),
            same_worker(final(self).workers()[i as int], old(self).workers()[i as int]),
            final(self).workers()[i as int].working == old(self).workers()[i as int].working,
            final(self).workers()[i as int].queue.entries().len() == 0,
            final(self).workers()[i as int].queue.spec_next_id() == old(self).workers()[i as int].queue.spec_next_id(),
    {
        let ghost ws = self.workers@;
        self.workers[i].queue.clear();
        proof {
            let w1 = self.workers@[i as int];
            assert forall|d: u64| #[trigger] worker_holds(w1, d) implies worker_holds(ws[i as int], d) by {
                if seq_holds(w1.queue.entries(), d) {
                    let k = choose|k: int| 0 <= k < w1.queue.entries().len() && entry_holds(#[trigger] w1.queue.entries()[k], d);
                }
            }
            lemma_replace_worker(ws, self.designations@, self.next_designation_id, i as int, w1);
            assert(self.workers@ =~= ws.update(i as int, w1));
        }
    }

    /// The executor of worker `i`'s active errand reports it done.
    pub fn mark_done(&mut self, i: usize)
        requires
            old(self).wf(),
            i < old(self).workers().len(),
        ensures
            final(self).wf(),
            final(self).designations() == old(self).designations(),
            final(self).spec_next_designation_id() == old(self).spec_next_designation_id(),
            only_worker_changed(old(self).workers(), final(self).workers(), i as int),
            final(self).workers()[i as int] == (Worker {
                working: match old(self).workers()[i as int].working {
                    Some(x) => Some(WorkingOnErrand { is_done: true, ..x }),
                    None => None,
                },
                ..old(self).workers()[i as int]
            }),
    {
        let ghost ws = self.workers@;
        match self.workers[i].working {
            Some(x) => {
                let mut x = x;
                x.done();
                self.workers[i].working = Some(x);
            },
            None => {},
        }
        proof {
            let w1 = self.workers@[i as int];
            assert(holds_no_more(w1, ws[i as int]));
            lemma_replace_worker(ws, self.designations@, self.next_designation_id, i as int, w1);
            assert(self.workers@ =~= ws.update(i as int, w1));
        }
    }

    /// The executor of worker `i`'s active errand reports that it failed.
    pub fn mark_failed(&mut self, i: usize)
        requires
            old(self).wf(),
            i < old(self).workers().len(),
        ensures
            final(self).wf(),
            final(self).designations() == old(self).designations(),
            final(self).spec_next_designation_id() == old(self).spec_next_designation_id(),
            only_worker_changed(old(self).workers(), final(self).workers(), i as int),
            final(self).workers()[i as int] == (Worker {
                working: match old(self).workers()[i as int].working {
                    Some(x) => Some(WorkingOnErrand { failed: true, ..x }),
                    None => None,
                },
                ..old(self).workers()[i as int]
            }),
    {
        let ghost ws = self.workers@;
        match self.workers[i].working {
            Some(x) => {
                let mut x = x;
                x.fail();
                self.workers[i].working = Some(x);
            },
            None => {},
        }
        proof {
            let w1 = self.workers@[i as int];
            assert(holds_no_more(w1, ws[i as int]));
            lemma_replace_worker(ws, self.designations@, self.next_designation_id, i as int, w1);
            assert(self.workers@ =~= ws.update(i as int, w1));
        }
    }

    /// Worker `i` gained the capability for `kind`.
    pub fn add_capability(&mut self, i: usize, kind: ErrandKind)
        requires
            old(self).wf(),
            i < old(self).workers().len(),
        ensures
            final(self).wf(),
            final(self).designations() == old(self).designations(),
            final(self).spec_next_designation_id() == old(self).spec_next_designation_id(),
            only_worker_changed(old(self).workers(), final(self).workers(), i as int),
            final(self).workers()[i as int] == (Worker {
                priorities: final(self).workers()[i as int].priorities,
                ..old(self).workers()[i as int]
            }),
            gained(
                old(self).workers()[i as int].priorities.entries(),
                kind,
                final(self).workers()[i as int].priorities.entries(),
            ),
    {
        let ghost ws = self.workers@;
        self.workers[i].priorities.add_capability(kind);
        proof {
            let w1 = self.workers@[i as int];
            assert(holds_no_more(w1, ws[i as int]));
            lemma_replace_worker(ws, self.designations@, self.next_designation_id, i as int, w1);
            assert(self.workers@ =~= ws.update(i as int, w1));
        }
    }

    /// Worker `i` lost the capability for `kind`.
    pub fn remove_capability(&mut self, i: usize, kind: ErrandKind)
        requires
            old(self).wf(),
            i < old(self).workers().len(),
        ensures
            final(self).wf(),
            final(self).designations() == old(self).designations(),
            final(self).spec_next_designation_id() == old(self).spec_next_designation_id(),
            only_worker_changed(old(self).workers(), final(self).workers(), i as int),
            final(self).workers()[i as int] == (Worker {
                priorities: final(self).workers()[i as int].priorities,
                ..old(self).workers()[i as int]
            }),
            lost(
                old(self).workers()[i as int].priorities.entries(),
                kind,
                final(self).workers()[i as int].priorities.entries(),
            ),
    {
        let ghost ws = self.workers@;
        self.workers[i].priorities.remove_capability(kind);
        proof {
            let w1 = self.workers@[i as int];
            assert(holds_no_more(w1, ws[i as int]));
            lemma_replace_worker(ws, self.designations@, self.next_designation_id, i as int, w1);
            assert(self.workers@ =~= ws.update(i as int, w1));
        }
    }

    /// Sets worker `i`'s rank for `kind`, if its table has the kind.
    pub fn set_priority(&mut self, i: usize, kind: ErrandKind, priority: Option<u8>)
        requires
            old(self).wf(),
            i < old(self).workers().len(),
        ensures
            final(self).wf(),
            final(self).designations() == old(self).designations(),
            final(self).spec_next_designation_id() == old(self).spec_next_designation_id(),
            only_worker_changed(old(self).workers(), final(self).workers(), i as int),
            final(self).workers()[i as int] == (Worker {
                priorities: final(self).workers()[i as int].priorities,
                ..old(self).workers()[i as int]
            }),
            reranked(
                old(self).workers()[i as int].priorities.entries(),
                kind,
                priority,
                final(self).workers()[i as int].priorities.entries(),
            ),
    {
        let ghost ws = self.workers@;
        self.workers[i].priorities.set_priority(kind, priority);
        proof {
            let w1 = self.workers@[i as int];
            assert(holds_no_more(w1, ws[i as int]));
            lemma_replace_worker(ws, self.designations@, self.next_designation_id, i as int, w1);
            assert(self.workers@ =~= ws.update(i as int, w1));
        }
    }

    /// Whether another designation can still get a fresh id.
    pub fn has_designation_room(&self) -> (r: bool)
        ensures
            r == (self.spec_next_designation_id() < u64::MAX),
    {
        self.next_designation_id < u64::MAX
    }

    /// Posts `errand` on object `entity` at `position` and returns the new
    /// designation's id. A designation the object had before is dropped,
    /// which cancels any claim on it.
    pub fn designate(&mut self, entity: EntityId, position: WorldPosition, errand: Errand) -> (r: u64)
        requires
            old(self).wf(),
            old(self).spec_next_designation_id() < u64::MAX,
        ensures
            final(self).wf(),
            final(self).workers() == old(self).workers(),
            r == old(self).spec_next_designation_id(),
            final(self).spec_next_designation_id() == r + 1,
            ({
                let d = Designation { id: r, entity, position, errand };
                let ds = old(self).designations();
                if exists|k: int| 0 <= k < ds.len() && (#[trigger] ds[k]).entity == entity {
                    exists|k: int| 0 <= k < ds.len() && (#[trigger] ds[k]).entity == entity
                        && final(self).designations() == ds.update(k, d)
                } else {
                    final(self).designations() == ds.push(d)
                }
            }),
    {
        let id = self.next_designation_id;
        let d = Designation { id, entity, position, errand };
        let ghost ds = self.designations@;
        match self.find_designation(entity) {
            Some(k) => {
                self.designations.set(k, d);
            },
            None => {
                self.designations.push(d);
            },
        }
        self.next_designation_id = id + 1;
        proof {
            let nds = self.designations@;
            assert forall|a: int, b: int| 0 <= a < b < nds.len() implies (#[trigger] nds[a]).entity != (#[trigger] nds[b]).entity by {
                if a < ds.len() && b < ds.len() {
                    if nds[a] != ds[a] {
                        assert(ds[b].entity != entity || nds[b] != ds[b]);
                    }
                }
            }
            assert forall|a: int, b: int| 0 <= a < b < nds.len() implies (#[trigger] nds[a]).id != (#[trigger] nds[b]).id by {
                if a < ds.len() && b < ds.len() {
                    if nds[a] != ds[a] {
                        assert(nds[a].id == id);
                        assert(nds[b] == ds[b]);
                    } else if nds[b] != ds[b] {
                        assert(nds[b].id == id);
                    }
                }
            }
            assert forall|i: int, dd: u64| 0 <= i < self.workers@.len() && #[trigger] worker_holds(self.workers@[i], dd)
                implies dd < self.next_designation_id by {
            }
        }
        id
    }

    /// Withdraws the designation on object `entity`, if there is one, which
    /// cancels any claim on it. Returns whether there was one.
    pub fn remove_designation(&mut self, entity: EntityId) -> (r: bool)
        requires
            old(self).wf(),
        ensures
            final(self).wf(),
            final(self).workers() == old(self).workers(),
            final(self).spec_next_designation_id() == old(self).spec_next_designation_id(),
            r == exists|k: int| 0 <= k < old(self).designations().len() && (#[trigger] old(self).designations()[k]).entity == entity,
            r ==> exists|k: int|
                0 <= k < old(self).designations().len() && (#[trigger] old(self).designations()[k]).entity == entity
                    && final(self).designations() == old(self).designations().remove(k),
            !r ==> final(self).designations() == old(self).designations(),
    {
        let ghost ds = self.designations@;
        match self.find_designation(entity) {
            Some(k) => {
                let _ = self.designations.remove(k);
                proof {
                    let nds = self.designations@;
                    assert forall|a: int, b: int| 0 <= a < b < nds.len() implies (#[trigger] nds[a]).entity != (#[trigger] nds[b]).entity by {
                        let a0 = if a < k { a } else { a + 1 };
                        let b0 = if b < k { b } else { b + 1 };
                        assert(nds[a] == ds[a0] && nds[b] == ds[b0]);
                    }
                    assert forall|a: int| 0 <= a < nds.len() implies (#[trigger] nds[a]).id < self.next_designation_id by {
                        let a0 = if a < k { a } else { a + 1 };
                        assert(nds[a] == ds[a0]);
                    }
                    assert forall|a: int, b: int| 0 <= a < b < nds.len() implies (#[trigger] nds[a]).id != (#[trigger] nds[b]).id by {
                        let a0 = if a < k { a } else { a + 1 };
                        let b0 = if b < k { b } else { b + 1 };
                        assert(nds[a] == ds[a0] && nds[b] == ds[b0]);
                    }
                }
                true
            },
            None => false,
        }
    }

    /// Completion phase: every worker whose active errand was reported done
    /// or failed drops it, popping its entry if that is still the front.
    /// Returns the worker and errand id of each errand reported done.
    pub fn clear_finished_errands(&mut self) -> (r: Vec<(EntityId, u64)>)
        requires
            old(self).wf(),
        ensures
            final(self).wf(),
            final(self).designations() == old(self).designations(),
            final(self).spec_next_designation_id() == old(self).spec_next_designation_id(),
            final(self).workers().len() == old(self).workers().len(),
            forall|i: int| 0 <= i < old(self).workers().len() ==>
                finished_step(#[trigger] old(self).workers()[i], final(self).workers()[i]),
            forall|c: (EntityId, u64)| r@.contains(c) <==> exists|i: int|
                0 <= i < old(self).workers().len() && (#[trigger] old(self).workers()[i]).entity == c.0
                    && old(self).workers()[i].working.is_some() && old(self).workers()[i].working.unwrap().is_done
                    && old(self).workers()[i].working.unwrap().id == c.1,
    {
        let ghost ws = self.workers@;
        let mut done: Vec<(EntityId, u64)> = Vec::new();
        let mut i: usize = 0;
        while i < self.workers.len()
            invariant
                self.wf(),
                self.designations() == old(self).designations(),
                self.next_designation_id == old(self).next_designation_id,
                ws == old(self).workers(),
                self.workers@.len() == ws.len(),
                i <= ws.len(),
                forall|j: int| 0 <= j < i ==> finished_step(#[trigger] ws[j], self.workers@[j]),
                forall|j: int| i <= j < ws.len() ==> self.workers@[j] == ws[j],
                forall|c: (EntityId, u64)| done@.contains(c) <==> exists|j: int|
                    0 <= j < i && (#[trigger] ws[j]).entity == c.0 && ws[j].working.is_some()
                        && ws[j].working.unwrap().is_done && ws[j].working.unwrap().id == c.1,
            decreases ws.len() - i,
        {
            let ghost before = self.workers@;
            let ghost done_before = done@;
            match self.workers[i].working {
                Some(x) => {
                    if x.is_done || x.failed {
                        if x.is_done {
                            done.push((self.workers[i].entity, x.id));
                        }
                        let front = self.workers[i].queue.front_id();
                        self.workers[i].working = None;
                        if front == Some(x.id) {
                            self.workers[i].queue.pop_front();
                        }
                    }
                },
                None => {},
            }
            proof {
                let (w0, w1) = (before[i as int], self.workers@[i as int]);
                assert(finished_step(w0, w1));
                assert forall|d: u64| #[trigger] worker_holds(w1, d) implies worker_holds(w0, d) by {
                    if seq_holds(w1.queue.entries(), d) {
                        let k = choose|k: int| 0 <= k < w1.queue.entries().len() && entry_holds(#[trigger] w1.queue.entries()[k], d);
                        if w1.queue.entries() != w0.queue.entries() {
                            assert(w1.queue.entries()[k] == w0.queue.entries()[k + 1]);
                        }
                    }
                }
                assert forall|k: int|
                    0 <= k < w1.queue.entries().len() && (#[trigger] w1.queue.entries()[k]).reservation.is_some() implies
                        w1.queue.entries()[k].fail_on@.contains(
                            FailureCondition::TargetErrandCancelled(w1.queue.entries()[k].reservation.unwrap().designation),
                        ) by {
                    if w1.queue.entries() != w0.queue.entries() {
                        assert(w1.queue.entries()[k] == w0.queue.entries()[k + 1]);
                    }
                }
                lemma_replace_worker(before, self.designations@, self.next_designation_id, i as int, w1);
                assert(self.workers@ =~= before.update(i as int, w1));
                assert forall|c: (EntityId, u64)| done@.contains(c) <==> exists|j: int|
                    0 <= j < i + 1 && (#[trigger] ws[j]).entity == c.0 && ws[j].working.is_some()
                        && ws[j].working.unwrap().is_done && ws[j].working.unwrap().id == c.1 by {
                    let pushed = w0.working.is_some() && w0.working.unwrap().is_done;
                    if pushed {
                        assert(done@ == done_before.push((w0.entity, w0.working.unwrap().id)));
                    } else {
                        assert(done@ == done_before);
                    }
                    if exists|j: int| 0 <= j < i + 1 && (#[trigger] ws[j]).entity == c.0 && ws[j].working.is_some()
                        && ws[j].working.unwrap().is_done && ws[j].working.unwrap().id == c.1 {
                        let j = choose|j: int| 0 <= j < i + 1 && (#[trigger] ws[j]).entity == c.0 && ws[j].working.is_some()
                            && ws[j].working.unwrap().is_done && ws[j].working.unwrap().id == c.1;
                        if j < i {
                            assert(done_before.contains(c));
                            let m = choose|m: int| 0 <= m < done_before.len() && done_before[m] == c;
                            assert(done@[m] == c);
                        } else {
                            assert(done@.last() == c);
                        }
                    }
                    if done@.contains(c) {
                        let m = choose|m: int| 0 <= m < done@.len() && done@[m] == c;
                        if m < done_before.len() {
                            assert(done_before[m] == c);
                            assert(done_before.contains(c));
                        } else {
                            assert(ws[i as int].entity == c.0);
                        }
                    }
                }
            }
            i = i + 1;
        }
        done
    }

    /// Reconciliation phase: a worker whose active errand is no longer the
    /// front of its queue (the queue was cleared or replaced, or the entry
    /// failed) drops it without completing it, releasing its reservation.
    pub fn cancel_current_task_when_overwritten(&mut self)
        requires
            old(self).wf(),
        ensures
            final(self).wf(),
            final(self).designations() == old(self).designations(),
            final(self).spec_next_designation_id() == old(self).spec_next_designation_id(),
            final(self).workers().len() == old(self).workers().len(),
            forall|i: int| 0 <= i < old(self).workers().len() ==>
                overwritten_step(#[trigger] old(self).workers()[i], final(self).workers()[i]),
    {
        let ghost ws = self.workers@;
        let mut i: usize = 0;
        while i < self.workers.len()
            invariant
                self.wf(),
                self.designations() == old(self).designations(),
                self.next_designation_id == old(self).next_designation_id,
                ws == old(self).workers(),
                self.workers@.len() == ws.len(),
                i <= ws.len(),
                forall|j: int| 0 <= j < i ==> overwritten_step(#[trigger] ws[j], self.workers@[j]),
                forall|j: int| i <= j < ws.len() ==> self.workers@[j] == ws[j],
            decreases ws.len() - i,
        {
            let ghost before = self.workers@;
            match self.workers[i].working {
                Some(x) => {
                    if self.workers[i].queue.front_id() != Some(x.id) {
                        self.workers[i].working = None;
                    }
                },
                None => {},
            }
            proof {
                let w1 = self.workers@[i as int];
                assert(holds_no_more(w1, before[i as int]));
                lemma_replace_worker(before, self.designations@, self.next_designation_id, i as int, w1);
                assert(self.workers@ =~= before.update(i as int, w1));
            }
            i = i + 1;
        }
    }

    /// Activation phase: every worker without an active errand starts the
    /// front entry of its queue.
    pub fn start_next_errand_in_queue(&mut self)
        requires
            old(self).wf(),
        ensures
            final(self).wf(),
            final(self).designations() == old(self).designations(),
            final(self).spec_next_designation_id() == old(self).spec_next_designation_id(),
            final(self).workers().len() == old(self).workers().len(),
            forall|i: int| 0 <= i < old(self).workers().len() ==>
                activation_step(#[trigger] old(self).workers()[i], final(self).workers()[i]),
    {
        let ghost ws = self.workers@;
        let mut i: usize = 0;
        while i < self.workers.len()
            invariant
                self.wf(),
                self.designations() == old(self).designations(),
                self.next_designation_id == old(self).next_designation_id,
                ws == old(self).workers(),
                self.workers@.len() == ws.len(),
                i <= ws.len(),
                forall|j: int| 0 <= j < i ==> activation_step(#[trigger] ws[j], self.workers@[j]),
                forall|j: int| i <= j < ws.len() ==> self.workers@[j] == ws[j],
            decreases ws.len() - i,
        {
            let ghost before = self.workers@;
            if self.workers[i].working.is_none() && self.workers[i].queue.len() > 0 {
                let work = self.workers[i].queue.get(0).activate();
                self.workers[i].working = Some(work);
            }
            proof {
                let (w0, w1) = (before[i as int], self.workers@[i as int]);
                assert forall|d: u64| #[trigger] worker_holds(w1, d) implies worker_holds(w0, d) by {
                    if working_holds(w1.working, d) && w1 != w0 {
                        assert(entry_holds(w0.queue.entries()[0], d));
                    }
                }
                lemma_replace_worker(before, self.designations@, self.next_designation_id, i as int, w1);
                assert(self.workers@ =~= before.update(i as int, w1));
            }
            i = i + 1;
        }
    }

    /// Failure sweep: designations on objects that no longer exist are
    /// dropped with them; then every entry of every queue whose target is
    /// gone, or whose designation has been dropped, leaves its queue.
    pub fn check_failed_errands(&mut self, live_entities: &Vec<EntityId>)
        requires
            old(self).wf(),
        ensures
            final(self).wf(),
            final(self).designations() == on_live_objects(old(self).designations(), live_entities@),
            final(self).spec_next_designation_id() == old(self).spec_next_designation_id(),
            final(self).workers().len() == old(self).workers().len(),
            forall|i: int| 0 <= i < old(self).workers().len() ==>
                sweep_step(#[trigger] old(self).workers()[i], final(self).workers()[i], live_entities@, ids_of(final(self).designations())),
    {
        let ghost ds = self.designations@;
        let mut kept: Vec<Designation> = Vec::new();
        let mut k: usize = 0;
        while k < self.designations.len()
            invariant
                ds == self.designations@,
                k <= ds.len(),
                kept@ == on_live_objects(ds.take(k as int), live_entities@),
                forall|a: int| 0 <= a < kept@.len() ==> exists|j: int| 0 <= j < k && #[trigger] ds[j] == #[trigger] kept@[a],
                forall|a: int, b: int| 0 <= a < b < kept@.len() ==> (#[trigger] kept@[a]).entity != (#[trigger] kept@[b]).entity,
                forall|a: int, b: int| 0 <= a < b < ds.len() ==> (#[trigger] ds[a]).entity != (#[trigger] ds[b]).entity,
                forall|a: int, b: int| 0 <= a < b < kept@.len() ==> (#[trigger] kept@[a]).id != (#[trigger] kept@[b]).id,
                forall|a: int, b: int| 0 <= a < b < ds.len() ==> (#[trigger] ds[a]).id != (#[trigger] ds[b]).id,
            decreases ds.len() - k,
        {
            let d = self.designations[k];
            let ghost before = kept@;
            proof {
                reveal(Seq::filter);
                assert(ds.take(k + 1).drop_last() =~= ds.take(k as int));
                assert(ds.take(k + 1).last() == d);
            }
            if contains_entity(live_entities, d.entity) {
                kept.push(d);
                proof {
                    assert forall|a: int| 0 <= a < kept@.len() implies exists|j: int| 0 <= j < k + 1 && #[trigger] ds[j] == #[trigger] kept@[a] by {
                        if a < before.len() {
                            let j = choose|j: int| 0 <= j < k && #[trigger] ds[j] == before[a];
                            assert(ds[j] == kept@[a]);
                        } else {
                            assert(ds[k as int] == kept@[a]);
                        }
                    }
                    assert forall|a: int, b: int| 0 <= a < b < kept@.len() implies (#[trigger] kept@[a]).entity != (#[trigger] kept@[b]).entity by {
                        if b == before.len() {
                            let j = choose|j: int| 0 <= j < k && #[trigger] ds[j] == before[a];
                            assert(ds[j].entity != ds[k as int].entity);
                        }
                    }
                    assert forall|a: int, b: int| 0 <= a < b < kept@.len() implies (#[trigger] kept@[a]).id != (#[trigger] kept@[b]).id by {
                        if b == before.len() {
                            let j = choose|j: int| 0 <= j < k && #[trigger] ds[j] == before[a];
                            assert(ds[j].id != ds[k as int].id);
                        }
                    }
                }
            }
            assert(kept@ =~= on_live_objects(ds.take(k + 1), live_entities@));
            k = k + 1;
        }
        assert(ds.take(ds.len() as int) =~= ds);
        let ghost ws = self.workers@;
        self.designations = kept;
        proof {
            assert forall|a: int| 0 <= a < self.designations@.len() implies (#[trigger] self.designations@[a]).id < self.next_designation_id by {
                let j = choose|j: int| 0 <= j < ds.len() && #[trigger] ds[j] == self.designations@[a];
            }
        }
        let mut ids: Vec<u64> = Vec::new();
        let mut m: usize = 0;
        while m < self.designations.len()
            invariant
                m <= self.designations@.len(),
                ids@ == ids_of(self.designations@.take(m as int)),
            decreases self.designations@.len() - m,
        {
            ids.push(self.designations[m].id);
            m = m + 1;
            assert(ids@ =~= ids_of(self.designations@.take(m as int)));
        }
        assert(self.designations@.take(self.designations@.len() as int) =~= self.designations@);
        let mut i: usize = 0;
        while i < self.workers.len()
            invariant
                self.wf(),
                self.designations@ == on_live_objects(ds, live_entities@),
                ids@ == ids_of(self.designations@),
                self.next_designation_id == old(self).next_designation_id,
                ws == old(self).workers(),
                self.workers@.len() == ws.len(),
                i <= ws.len(),
                forall|j: int| 0 <= j < i ==> sweep_step(#[trigger] ws[j], self.workers@[j], live_entities@, ids@),
                forall|j: int| i <= j < ws.len() ==> self.workers@[j] == ws[j],
            decreases ws.len() - i,
        {
            let ghost before = self.workers@;
            self.workers[i].queue.remove_failed(live_entities, &ids);
            proof {
                let (w0, w1) = (before[i as int], self.workers@[i as int]);
                let pred = |q: crate::errand::QueuedErrand| !has_failed(q, live_entities@, ids@);
                assert forall|k: int| 0 <= k < w1.queue.entries().len() implies w0.queue.entries().contains(
                    #[trigger] w1.queue.entries()[k]) by {
                    assert(w1.queue.entries().contains(w1.queue.entries()[k]));
                    w0.queue.entries().lemma_filter_contains_rev(pred, w1.queue.entries()[k]);
                }
                assert forall|d: u64| #[trigger] worker_holds(w1, d) implies worker_holds(w0, d) by {
                    if seq_holds(w1.queue.entries(), d) {
                        let k = choose|k: int| 0 <= k < w1.queue.entries().len() && entry_holds(#[trigger] w1.queue.entries()[k], d);
                        assert(w0.queue.entries().contains(w1.queue.entries()[k]));
                        let m = choose|m: int| 0 <= m < w0.queue.entries().len() && w0.queue.entries()[m] == w1.queue.entries()[k];
                        assert(entry_holds(w0.queue.entries()[m], d));
                    }
                }
                assert forall|k: int|
                    0 <= k < w1.queue.entries().len() && (#[trigger] w1.queue.entries()[k]).reservation.is_some() implies
                        w1.queue.entries()[k].fail_on@.contains(
                            FailureCondition::TargetErrandCancelled(w1.queue.entries()[k].reservation.unwrap().designation),
                        ) by {
                    assert(w0.queue.entries().contains(w1.queue.entries()[k]));
                    let m = choose|m: int| 0 <= m < w0.queue.entries().len() && w0.queue.entries()[m] == w1.queue.entries()[k];
                    assert(w0.queue.entries()[m] == w1.queue.entries()[k]);
                }
                lemma_replace_worker(before, self.designations@, self.next_designation_id, i as int, w1);
                assert(self.workers@ =~= before.update(i as int, w1));
            }
            i = i + 1;
        }
    }

    /// Queues for worker `i` an entry for designation `k`'s errand that owns
    /// a reservation of it; nobody holds `k`.
    fn append_claim(&mut self, i: usize, k: usize)
        requires
            old(self).wf(),
            i < old(self).workers().len(),
            k < old(self).designations().len(),
            old(self).workers()[i as int].queue.has_room(),
            !old(self).claimed(old(self).designations()[k as int].id),
        ensures
            final(self).wf(),
            final(self).designations() == old(self).designations(),
            final(self).spec_next_designation_id() == old(self).spec_next_designation_id(),
            only_worker_changed(old(self).workers(), final(self).workers(), i as int),
            claim_appended(old(self).workers()[i as int], final(self).workers()[i as int], old(self).designations()[k as int]),
    {
        let ghost ws = self.workers@;
        let d = self.designations[k];
        let reservation = Reservation { designation: d.id, reserved_by: self.workers[i].entity };
        let mut fail_on: Vec<FailureCondition> = Vec::new();
        fail_on.push(FailureCondition::TargetErrandCancelled(d.id));
        fail_on.push(FailureCondition::TargetRemoved(d.entity));
        self.workers[i].queue.append_errand(d.errand, Some(reservation), fail_on);
        proof {
            let (w0, w1) = (ws[i as int], self.workers@[i as int]);
            let n = w0.queue.entries().len() as int;
            assert(fail_on@ =~= seq![
                FailureCondition::TargetErrandCancelled(d.id),
                FailureCondition::TargetRemoved(d.entity),
            ]);
            assert(w1.queue.entries()[n].fail_on@[0] == FailureCondition::TargetErrandCancelled(d.id));
            assert forall|m: int| 0 <= m < n implies w1.queue.entries()[m] == w0.queue.entries()[m] by {
                assert(w1.queue.entries().drop_last()[m] == w1.queue.entries()[m]);
            }
            assert forall|dd: u64| #[trigger] worker_holds(w1, dd) implies dd == d.id || worker_holds(w0, dd) by {
                if seq_holds(w1.queue.entries(), dd) {
                    let m = choose|m: int| 0 <= m < w1.queue.entries().len() && entry_holds(#[trigger] w1.queue.entries()[m], dd);
                    if m < n {
                        assert(entry_holds(w0.queue.entries()[m], dd));
                    }
                }
            }
            assert forall|m: int|
                0 <= m < w1.queue.entries().len() && (#[trigger] w1.queue.entries()[m]).reservation.is_some() implies
                    w1.queue.entries()[m].fail_on@.contains(
                        FailureCondition::TargetErrandCancelled(w1.queue.entries()[m].reservation.unwrap().designation),
                    ) by {
                if m < n {
                    assert(w1.queue.entries()[m] == w0.queue.entries()[m]);
                }
            }
            lemma_claim_keeps_wf(ws, self.designations@, self.next_designation_id, i as int, w1, d.id);
            assert(self.workers@ =~= ws.update(i as int, w1));
        }
    }

    /// Worker `i` tries to claim designation `k`: it fails if some worker
    /// holds `k` already, and otherwise queues `k`'s errand at the back of
    /// its queue, owning the reservation.
    pub fn claim(&mut self, i: usize, k: usize) -> (r: bool)
        requires
            old(self).wf(),
            i < old(self).workers().len(),
            k < old(self).designations().len(),
            old(self).workers()[i as int].queue.has_room(),
        ensures
            final(self).wf(),
            final(self).designations() == old(self).designations(),
            final(self).spec_next_designation_id() == old(self).spec_next_designation_id(),
            r == !old(self).claimed(old(self).designations()[k as int].id),
            !r ==> final(self).workers() == old(self).workers(),
            r ==> only_worker_changed(old(self).workers(), final(self).workers(), i as int),
            r ==> claim_appended(old(self).workers()[i as int], final(self).workers()[i as int], old(self).designations()[k as int]),
    {
        if self.is_claimed(self.designations[k].id) {
            return false;
        }
        self.append_claim(i, k);
        true
    }

    /// Assignment for the idle worker `i`: among the designations whose kind
    /// its table has available with a rank, and that nobody holds, it claims
    /// the one it prefers by rank, then by the kinds' global order, then
    /// nearest first. Returns whether it claimed one.
    pub fn assign_worker(&mut self, i: usize) -> (r: bool)
        requires
            old(self).wf(),
            i < old(self).workers().len(),
            is_idle(old(self).workers()[i as int]),
            old(self).workers()[i as int].queue.has_room(),
        ensures
            final(self).wf(),
            final(self).designations() == old(self).designations(),
            final(self).spec_next_designation_id() == old(self).spec_next_designation_id(),
            r == exists|k: int| claimable(old(self).workers(), old(self).designations(), i as int, k),
            !r ==> final(self).workers() == old(self).workers(),
            r ==> only_worker_changed(old(self).workers(), final(self).workers(), i as int),
            r ==> exists|k: int| {
                &&& claimable(old(self).workers(), old(self).designations(), i as int, k)
                &&& forall|k2: int| claimable(old(self).workers(), old(self).designations(), i as int, k2) ==> key_le(
                    candidate_key(old(self).workers()[i as int], old(self).designations(), k),
                    candidate_key(old(self).workers()[i as int], old(self).designations(), k2),
                )
                &&& claim_step(old(self).workers()[i as int], final(self).workers()[i as int], old(self).designations()[k])
            },
    {
        let ghost ws = self.workers@;
        let ghost ds = self.designations@;
        let ghost w = ws[i as int];
        let mut candidates: Vec<(u8, i32, u128, usize)> = Vec::new();
        proof {
            assert forall|k: int| 0 <= k < ds.len() implies position_of(
                w.priorities.entries(),
                (#[trigger] ds[k]).errand.spec_kind(),
            ) >= 0 by {
                lemma_position_of(w.priorities.entries(), ds[k].errand.spec_kind());
            }
        }
        let n_prio = self.workers[i].priorities.len();
        let mut p: usize = 0;
        while p < n_prio
            invariant
                self.workers@ == ws,
                self.designations@ == ds,
                i < ws.len(),
                w == ws[i as int],
                w.wf(),
                forall|k: int| 0 <= k < ds.len() ==> position_of(
                    w.priorities.entries(),
                    (#[trigger] ds[k]).errand.spec_kind(),
                ) >= 0,
                n_prio == w.priorities.entries().len(),
                p <= n_prio,
                forall|a: int| 0 <= a < candidates@.len() ==> {
                    &&& (#[trigger] candidates@[a]).3 < ds.len()
                    &&& eligible(w, ds[candidates@[a].3 as int])
                    &&& candidates@[a] == candidate_key(w, ds, candidates@[a].3 as int)
                },
                forall|k: int| 0 <= k < ds.len() && eligible(w, #[trigger] ds[k]) && position_of(
                    w.priorities.entries(),
                    ds[k].errand.spec_kind(),
                ) < p ==> candidates@.contains(candidate_key(w, ds, k)),
            decreases n_prio - p,
        {
            let prio = self.workers[i].priorities.get(p);
            proof {
                lemma_unique_kind(w, p as int);
            }
            if prio.available && prio.priority.is_some() {
                let rank = prio.priority.unwrap();
                let order = prio.errand_type_order;
                let position = self.workers[i].position;
                let mut k: usize = 0;
                while k < self.designations.len()
                    invariant
                        self.workers@ == ws,
                        self.designations@ == ds,
                        i < ws.len(),
                        w == ws[i as int],
                        w.wf(),
                        n_prio == w.priorities.entries().len(),
                        p < n_prio,
                        prio == w.priorities.entries()[p as int],
                        prio.available,
                        prio.priority == Some(rank),
                        order == type_order(prio.errand_kind),
                        position == w.position,
                        position_of(w.priorities.entries(), prio.errand_kind) == p,
                        k <= ds.len(),
                        forall|a: int| 0 <= a < candidates@.len() ==> {
                            &&& (#[trigger] candidates@[a]).3 < ds.len()
                            &&& eligible(w, ds[candidates@[a].3 as int])
                            &&& candidates@[a] == candidate_key(w, ds, candidates@[a].3 as int)
                        },
                        forall|k2: int| 0 <= k2 < ds.len() && eligible(w, #[trigger] ds[k2]) && position_of(
                            w.priorities.entries(),
                            ds[k2].errand.spec_kind(),
                        ) < p ==> candidates@.contains(candidate_key(w, ds, k2)),
                        forall|k2: int| 0 <= k2 < k && eligible(w, #[trigger] ds[k2]) && position_of(
                            w.priorities.entries(),
                            ds[k2].errand.spec_kind(),
                        ) == p ==> candidates@.contains(candidate_key(w, ds, k2)),
                    decreases ds.len() - k,
                {
                    let d = self.designations[k];
                    if d.errand.kind() == prio.errand_kind {
                        let dist = position.distance_squared(&d.position);
                        let ghost before = candidates@;
                        candidates.push((rank, order, dist, k));
                        proof {
                            assert(candidates@.last() == candidate_key(w, ds, k as int));
                            assert forall|k2: int| 0 <= k2 < ds.len() && eligible(w, #[trigger] ds[k2]) && position_of(
                                w.priorities.entries(),
                                ds[k2].errand.spec_kind(),
                            ) < p implies candidates@.contains(candidate_key(w, ds, k2)) by {
                                let m = choose|m: int| 0 <= m < before.len() && before[m] == candidate_key(w, ds, k2);
                                assert(candidates@[m] == before[m]);
                            }
                            assert forall|k2: int| 0 <= k2 < k + 1 && eligible(w, #[trigger] ds[k2]) && position_of(
                                w.priorities.entries(),
                                ds[k2].errand.spec_kind(),
                            ) == p implies candidates@.contains(candidate_key(w, ds, k2)) by {
                                if k2 < k {
                                    let m = choose|m: int| 0 <= m < before.len() && before[m] == candidate_key(w, ds, k2);
                                    assert(candidates@[m] == before[m]);
                                } else {
                                    assert(candidates@[before.len() as int] == candidate_key(w, ds, k2));
                                }
                            }
                        }
                    } else {
                        proof {
                            lemma_position_of(w.priorities.entries(), d.errand.spec_kind());
                        }
                    }
                    k = k + 1;
                }
            }
            p = p + 1;
        }
        assert forall|k: int| 0 <= k < ds.len() && eligible(w, #[trigger] ds[k]) implies candidates@.contains(
            candidate_key(w, ds, k),
        ) by {
            lemma_position_of(w.priorities.entries(), ds[k].errand.spec_kind());
        }
        // the designations fit in memory, so their positions fit in a usize
        let _ = self.designations.len();
        assert(ds.len() <= usize::MAX);
        let sorted = sorted_candidates(candidates);
        proof {
            assert forall|a: int| 0 <= a < sorted@.len() implies candidates@.contains(#[trigger] sorted@[a]) by {
                vstd::seq_lib::to_multiset_contains(sorted@, sorted@[a]);
                vstd::seq_lib::to_multiset_contains(candidates@, sorted@[a]);
                assert(sorted@.contains(sorted@[a]));
            }
            assert forall|c: (u8, i32, u128, usize)| candidates@.contains(c) implies #[trigger] sorted@.contains(c) by {
                vstd::seq_lib::to_multiset_contains(sorted@, c);
                vstd::seq_lib::to_multiset_contains(candidates@, c);
            }
        }
        let mut j: usize = 0;
        while j < sorted.len()
            invariant
                self.workers@ == ws,
                self.designations@ == ds,
                self.next_designation_id == old(self).next_designation_id,
                self.wf(),
                i < ws.len(),
                w == ws[i as int],
                is_idle(w),
                w.queue.has_room(),
                j <= sorted@.len(),
                ds.len() <= usize::MAX,
                ws == old(self).workers(),
                ds == old(self).designations(),
                forall|k: int| 0 <= k < ds.len() && eligible(w, #[trigger] ds[k]) ==> candidates@.contains(
                    candidate_key(w, ds, k),
                ),
                forall|a: int| 0 <= a < sorted@.len() ==> candidates@.contains(#[trigger] sorted@[a]),
                forall|c: (u8, i32, u128, usize)| candidates@.contains(c) ==> #[trigger] sorted@.contains(c),
                forall|a: int| 0 <= a < candidates@.len() ==> {
                    &&& (#[trigger] candidates@[a]).3 < ds.len()
                    &&& eligible(w, ds[candidates@[a].3 as int])
                    &&& candidates@[a] == candidate_key(w, ds, candidates@[a].3 as int)
                },
                forall|a: int, b: int| 0 <= a < b < sorted@.len() ==> key_le(sorted@[a], sorted@[b]),
                forall|a: int| 0 <= a < j ==> held_by_some(ws, ds[(#[trigger] sorted@[a]).3 as int].id),
            decreases sorted@.len() - j,
        {
            let c = sorted[j];
            proof {
                assert(candidates@.contains(sorted@[j as int]));
                let m = choose|m: int| 0 <= m < candidates@.len() && candidates@[m] == c;
                assert(candidates@[m] == c);
            }
            let k = c.3;
            assert(c == candidate_key(w, ds, k as int));
            let d = self.designations[k];
            if !self.is_claimed(d.id) {
                self.append_claim(i, k);
                proof {
                    assert(claimable(ws, ds, i as int, k as int));
                    assert forall|k2: int| claimable(ws, ds, i as int, k2) implies key_le(
                        candidate_key(w, ds, k as int),
                        candidate_key(w, ds, k2),
                    ) by {
                        lemma_position_of(w.priorities.entries(), ds[k2].errand.spec_kind());
                        let key2 = candidate_key(w, ds, k2);
                        assert(candidates@.contains(key2));
                        assert(sorted@.contains(key2));
                        let a = choose|a: int| 0 <= a < sorted@.len() && sorted@[a] == key2;
                        assert(sorted@[a].3 as int == k2);
                        if a < j {
                            assert(held_by_some(ws, ds[sorted@[a].3 as int].id));
                            assert(held_by_some(ws, ds[k2].id));
                        } else if a > j {
                            assert(key_le(sorted@[j as int], sorted@[a]));
                        }
                    }
                }
                return true;
            }
            j = j + 1;
        }
        proof {
            assert forall|k: int| !claimable(ws, ds, i as int, k) by {
                if claimable(ws, ds, i as int, k) {
                    lemma_position_of(w.priorities.entries(), ds[k].errand.spec_kind());
                    let key = candidate_key(w, ds, k);
                    assert(candidates@.contains(key));
                    assert(sorted@.contains(key));
                    let a = choose|a: int| 0 <= a < sorted@.len() && sorted@[a] == key;
                    assert(sorted@[a].3 as int == k);
                    assert(held_by_some(ws, ds[sorted@[a].3 as int].id));
                    assert(held_by_some(ws, ds[k].id));
                }
            }
        }
        false
    }

    /// Assignment phase: each idle worker, in turn, claims the designation
    /// it prefers among those nobody holds (see `assign_worker`). A worker
    /// whose queue has used up every id is left alone.
    pub fn assign_available_errands(&mut self)
        requires
            old(self).wf(),
        ensures
            final(self).wf(),
            final(self).designations() == old(self).designations(),
            final(self).spec_next_designation_id() == old(self).spec_next_designation_id(),
            final(self).workers().len() == old(self).workers().len(),
            forall|i: int| 0 <= i < old(self).workers().len() && !is_idle(#[trigger] old(self).workers()[i])
                ==> final(self).workers()[i] == old(self).workers()[i],
            forall|i: int| 0 <= i < old(self).workers().len() ==> final(self).workers()[i] == old(self).workers()[i]
                || exists|k: int| #[trigger] preferred_claim(old(self).workers(), final(self).workers(), old(self).designations(), i, k),
            forall|i: int, k: int|
                0 <= i < old(self).workers().len() && old(self).workers()[i].queue.has_room()
                    && is_idle(final(self).workers()[i])
                    ==> !#[trigger] claimable(final(self).workers(), final(self).designations(), i, k),
    {
        let ghost ws = self.workers@;
        let mut i: usize = 0;
        while i < self.workers.len()
            invariant
                self.wf(),
                self.designations() == old(self).designations(),
                self.next_designation_id == old(self).next_designation_id,
                ws == old(self).workers(),
                self.workers@.len() == ws.len(),
                i <= ws.len(),
                forall|j: int| 0 <= j < i && !is_idle(#[trigger] ws[j]) ==> self.workers@[j] == ws[j],
                forall|j: int| 0 <= j < i ==> self.workers@[j] == ws[j]
                    || exists|k: int| #[trigger] preferred_claim(ws, self.workers@, self.designations@, j, k),
                forall|j: int| i <= j < ws.len() ==> self.workers@[j] == ws[j],
                forall|j: int, k: int|
                    0 <= j < i && ws[j].queue.has_room() && is_idle(self.workers@[j])
                        ==> !#[trigger] claimable(self.workers@, self.designations@, j, k),
            decreases ws.len() - i,
        {
            let ghost before = self.workers@;
            let idle = self.workers[i].working.is_none() && self.workers[i].queue.len() == 0;
            let room = self.workers[i].queue.has_room();
            if idle && room {
                let _ = self.designations.len();
                let claimed = self.assign_worker(i);
                proof {
                    assert forall|j: int| 0 <= j < ws.len() && j != i implies self.workers@[j] == before[j] by {}
                    let now = self.workers@;
                    let ds = self.designations@;
                    assert forall|j: int| 0 <= j < i && now[j] != ws[j] implies exists|k: int| #[trigger] preferred_claim(ws, now, ds, j, k) by {
                        let k = choose|k: int| #[trigger] preferred_claim(ws, before, ds, j, k);
                        assert forall|k2: int|
                            0 <= k2 < ds.len() && k2 != k && eligible(ws[j], ds[k2]) && #[trigger] key_le(
                                candidate_key(ws[j], ds, k2),
                                candidate_key(ws[j], ds, k),
                            ) implies held_by_some(ws, ds[k2].id) || exists|j2: int| 0 <= j2 < j && #[trigger] worker_holds(now[j2], ds[k2].id) by {
                            if !held_by_some(ws, ds[k2].id) {
                                let j2 = choose|j2: int| 0 <= j2 < j && #[trigger] worker_holds(before[j2], ds[k2].id);
                                assert(now[j2] == before[j2]);
                            }
                        }
                        assert(preferred_claim(ws, now, ds, j, k));
                    }
                    if claimed {
                        let k = choose|k: int| {
                            &&& claimable(before, ds, i as int, k)
                            &&& forall|k2: int| claimable(before, ds, i as int, k2) ==> key_le(
                                candidate_key(before[i as int], ds, k),
                                candidate_key(before[i as int], ds, k2),
                            )
                            &&& claim_step(before[i as int], now[i as int], ds[k])
                        };
                        assert forall|k2: int|
                            0 <= k2 < ds.len() && k2 != k && eligible(ws[i as int], ds[k2]) && #[trigger] key_le(
                                candidate_key(ws[i as int], ds, k2),
                                candidate_key(ws[i as int], ds, k),
                            ) implies held_by_some(ws, ds[k2].id) || exists|j2: int| 0 <= j2 < i && #[trigger] worker_holds(now[j2], ds[k2].id) by {
                            if claimable(before, ds, i as int, k2) {
                                assert(key_le(candidate_key(before[i as int], ds, k), candidate_key(before[i as int], ds, k2)));
                                assert(candidate_key(before[i as int], ds, k2).3 == candidate_key(before[i as int], ds, k).3);
                            }
                            assert(held_by_some(before, ds[k2].id));
                            let j2 = choose|j2: int| 0 <= j2 < before.len() && #[trigger] worker_holds(before[j2], ds[k2].id);
                            if j2 == i {
                                if seq_holds(before[j2].queue.entries(), ds[k2].id) {
                                    let m = choose|m: int| 0 <= m < before[j2].queue.entries().len() && entry_holds(#[trigger] before[j2].queue.entries()[m], ds[k2].id);
                                }
                            } else if j2 > i {
                                assert(before[j2] == ws[j2]);
                            } else {
                                assert(now[j2] == before[j2]);
                            }
                        }
                        assert(preferred_claim(ws, now, ds, i as int, k));
                        assert forall|d: u64| held_by_some(before, d) implies held_by_some(now, d) by {
                            let j = choose|j: int| 0 <= j < before.len() && #[trigger] worker_holds(before[j], d);
                            if j == i {
                                if seq_holds(before[j].queue.entries(), d) {
                                    let m = choose|m: int| 0 <= m < before[j].queue.entries().len() && entry_holds(#[trigger] before[j].queue.entries()[m], d);
                                }
                            } else {
                                assert(worker_holds(now[j], d));
                            }
                        }
                        assert forall|j: int, k: int|
                            0 <= j < i + 1 && ws[j].queue.has_room() && is_idle(now[j])
                                implies !#[trigger] claimable(now, self.designations@, j, k) by {
                            if j < i {
                                assert(now[j] == before[j]);
                                assert(!claimable(before, self.designations@, j, k));
                                if 0 <= k < self.designations@.len() && eligible(now[j], self.designations@[k]) {
                                    assert(held_by_some(before, self.designations@[k].id));
                                }
                            }
                        }
                    }
                }
            } else {
                proof {
                    assert forall|j: int, k: int|
                        0 <= j < i + 1 && ws[j].queue.has_room() && is_idle(self.workers@[j])
                            implies !#[trigger] claimable(self.workers@, self.designations@, j, k) by {
                        if j == i {
                            assert(!idle || !room);
                        }
                    }
                }
            }
            i = i + 1;
        }
    }

    /// One tick: completion, failure sweep, reconciliation, assignment and
    /// activation, in that order. `live_entities` are the objects that
    /// exist. Returns the worker and errand id of each errand completed.
    pub fn tick(&mut self, live_entities: &Vec<EntityId>) -> (r: Vec<(EntityId, u64)>)
        requires
            old(self).wf(),
        ensures
            final(self).wf(),
            final(self).designations() == on_live_objects(old(self).designations(), live_entities@),
            final(self).workers().len() == old(self).workers().len(),
            forall|i: int| 0 <= i < old(self).workers().len() ==> #[trigger] tick_step(
                old(self).workers()[i],
                final(self).workers()[i],
                live_entities@,
                final(self).designations(),
            ),
            forall|i: int, k: int|
                0 <= i < old(self).workers().len() && old(self).workers()[i].queue.has_room()
                    && is_idle(final(self).workers()[i])
                    ==> !#[trigger] claimable(final(self).workers(), final(self).designations(), i, k),
            forall|c: (EntityId, u64)| r@.contains(c) <==> exists|i: int|
                0 <= i < old(self).workers().len() && (#[trigger] old(self).workers()[i]).entity == c.0
                    && old(self).workers()[i].working.is_some() && old(self).workers()[i].working.unwrap().is_done
                    && old(self).workers()[i].working.unwrap().id == c.1,
    {
        let ghost b0 = self.workers();
        let done = self.clear_finished_errands();
        let ghost b1 = self.workers();
        self.check_failed_errands(live_entities);
        let ghost b2 = self.workers();
        self.cancel_current_task_when_overwritten();
        let ghost b3 = self.workers();
        self.assign_available_errands();
        let ghost b4 = self.workers();
        self.start_next_errand_in_queue();
        proof {
            assert forall|i: int| 0 <= i < b0.len() implies #[trigger] tick_step(
                b0[i],
                self.workers()[i],
                live_entities@,
                self.designations(),
            ) by {
                assert(finished_step(b0[i], b1[i]));
                assert(sweep_step(b1[i], b2[i], live_entities@, ids_of(self.designations())));
                assert(overwritten_step(b2[i], b3[i]));
                assert(!is_idle(b3[i]) ==> b4[i] == b3[i]);
                assert(is_idle(b3[i]) ==> b4[i] == b3[i] || exists|k: int|
                    0 <= k < self.designations().len() && eligible(b3[i], self.designations()[k]) && claim_step(b3[i], b4[i], self.designations()[k]));
                assert(activation_step(b4[i], self.workers()[i]));
            }
            let b5 = self.workers();
            let ds = self.designations();
            assert forall|dd: u64| held_by_some(b4, dd) implies held_by_some(b5, dd) by {
                let j = choose|j: int| 0 <= j < b4.len() && #[trigger] worker_holds(b4[j], dd);
                assert(activation_step(b4[j], b5[j]));
                assert(worker_holds(b5[j], dd));
            }
            assert forall|i: int, k: int|
                0 <= i < b0.len() && b0[i].queue.has_room() && is_idle(b5[i])
                    implies !#[trigger] claimable(b5, ds, i, k) by {
                assert(finished_step(b0[i], b1[i]));
                assert(sweep_step(b1[i], b2[i], live_entities@, ids_of(ds)));
                assert(overwritten_step(b2[i], b3[i]));
                assert(activation_step(b4[i], b5[i]));
                assert(is_idle(b4[i]));
                assert(b3[i].queue.has_room());
                assert(!claimable(b4, ds, i, k));
                assert(b5[i] == b4[i]);
            }
        }
        done
    }

    /// Whether some worker owns a reservation of designation `d`.
    pub fn is_claimed(&self, d: u64) -> (r: bool)
        ensures
            r == self.claimed(d),
    {
        let mut i: usize = 0;
        while i < self.workers.len()
            invariant
                i <= self.workers().len(),
                forall|k: int| 0 <= k < i ==> !#[trigger] worker_holds(self.workers()[k], d),
            decreases self.workers().len() - i,
        {
            let w = &self.workers[i];
            let in_working = match w.working {
                Some(x) => match x.reservation {
                    Some(r) => r.designation == d,
                    None => false,
                },
                None => false,
            };
            if in_working || w.queue.holds_reservation(d) {
                assert(worker_holds(self.workers()[i as int], d));
                return true;
            }
            i = i + 1;
        }
        false
    }
}

} // verus!
