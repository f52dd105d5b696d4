//! A worker's ordered queue of pending errands.

use crate::errand::{
    entry_holds, has_failed, Errand, FailureCondition, QueuedErrand, Reservation,
};
use crate::world::EntityId;
use std::collections::VecDeque;
use vstd::prelude::*;

verus! {

/// Errands waiting for one worker, front first, and the id the next entry
/// will get. Ids grow by one per entry and are never reused.
pub struct ErrandQueue {
    errands: VecDeque<QueuedErrand>,
    next_id: u64,
}

/// The errands of a sequence of entries, in order.
pub open spec fn errands_of(s: Seq<QueuedErrand>) -> Seq<Errand> {
    s.map_values(|q: QueuedErrand| q.errand)
}

/// `q` is an entry for `errand` with id `id`, no reservation and the
/// failure conditions the errand brings.
pub open spec fn fresh_entry(q: QueuedErrand, errand: Errand, id: int) -> bool {
    &&& q.id == id
    &&& q.errand == errand
    &&& q.reservation.is_none()
    &&& q.fail_on@ == errand.spec_on_enqueued()
}

/// Whether some entry of `s` owns a reservation of designation `d`.
pub open spec fn seq_holds(s: Seq<QueuedErrand>, d: u64) -> bool {
    exists|k: int| 0 <= k < s.len() && entry_holds(#[trigger] s[k], d)
}

/// What the failure sweep keeps of `s`.
pub open spec fn surviving(s: Seq<QueuedErrand>, live_entities: Seq<EntityId>, live_designations: Seq<u64>) -> Seq<QueuedErrand> {
    s.filter(|q: QueuedErrand| !has_failed(q, live_entities, live_designations))
}

/// Queue order: two appends to an empty queue leave the errands in the
/// order they were appended.
pub proof fn lemma_append_keeps_order(q0: ErrandQueue, q1: ErrandQueue, q2: ErrandQueue, a: Errand, b: Errand)
    requires
        q0.entries().len() == 0,
        errands_of(q1.entries()) == errands_of(q0.entries()).push(a),
        errands_of(q2.entries()) == errands_of(q1.entries()).push(b),
    ensures
        errands_of(q2.entries()) == seq![a, b],
{
    assert(errands_of(q0.entries()) =~= Seq::<Errand>::empty());
    assert(errands_of(q2.entries()) =~= seq![a, b]);
}

/// Queue order: two prepends to an empty queue leave the errands in the
/// reverse of the order they were prepended.
pub proof fn lemma_prepend_reverses_order(q0: ErrandQueue, q1: ErrandQueue, q2: ErrandQueue, a: Errand, b: Errand)
    requires
        q0.entries().len() == 0,
        errands_of(q1.entries()) == seq![a] + errands_of(q0.entries()),
        errands_of(q2.entries()) == seq![b] + errands_of(q1.entries()),
    ensures
        errands_of(q2.entries()) == seq![b, a],
{
    assert(errands_of(q0.entries()) =~= Seq::<Errand>::empty());
    assert(errands_of(q2.entries()) =~= seq![b, a]);
}

impl ErrandQueue {
    pub closed spec fn entries(&self) -> Seq<QueuedErrand> {
        self.errands@
    }

    pub closed spec fn spec_next_id(&self) -> u64 {
        self.next_id
    }

    /// Every entry's id is below the next id to hand out.
    pub open spec fn wf(&self) -> bool {
        &&& self.spec_next_id() >= 1
        &&& forall|i: int| 0 <= i < self.entries().len() ==> #[trigger] self.entries()[i].id < self.spec_next_id()
    }

    /// Whether another entry can still get a fresh id.
    pub open spec fn spec_has_room(&self) -> bool {
        self.spec_next_id() < u64::MAX
    }

    pub fn new() -> (r: Self)
        ensures
            r.wf(),
            r.entries().len() == 0,
            r.spec_next_id() == 1,
    {
        Self { errands: VecDeque::new(), next_id: 1 }
    }

    fn take_id(&mut self) -> (r: u64)
        requires
            old(self).wf(),
            old(self).has_room(),
        ensures
            r == old(self).spec_next_id(),
            final(self).spec_next_id() == r + 1,
            final(self).entries() == old(self).entries(),
    {
        let id = self.next_id;
        self.next_id = self.next_id + 1;
        id
    }

    /// Queues `errand` at the back, with the failure conditions the errand
    /// brings and no reservation.
    pub fn append_independent_errand(&mut self, errand: Errand)
        requires
            old(self).wf(),
            old(self).has_room(),
        ensures
            final(self).wf(),
            final(self).spec_next_id() == old(self).spec_next_id() + 1,
            final(self).entries().len() == old(self).entries().len() + 1,
            final(self).entries().drop_last() == old(self).entries(),
            final(self).entries().last().id == old(self).spec_next_id(),
            final(self).entries().last().errand == errand,
            final(self).entries().last().reservation.is_none(),
            final(self).entries().last().fail_on@ == errand.spec_on_enqueued(),
            errands_of(final(self).entries()) == errands_of(old(self).entries()).push(errand),
    {
        let fail_on = errand.on_enqueued();
        self.append_errand(errand, None, fail_on);
    }

    /// Queues at the back an entry for `errand` owning `reservation`, that
    /// fails on `fail_on`.
    pub(crate) fn append_errand(&mut self, errand: Errand, reservation: Option<Reservation>, fail_on: Vec<FailureCondition>)
        requires
            old(self).wf(),
            old(self).has_room(),
        ensures
            final(self).wf(),
            final(self).spec_next_id() == old(self).spec_next_id() + 1,
            final(self).entries().len() == old(self).entries().len() + 1,
            final(self).entries().drop_last() == old(self).entries(),
            final(self).entries().last().id == old(self).spec_next_id(),
            final(self).entries().last().errand == errand,
            final(self).entries().last().reservation == reservation,
            final(self).entries().last().fail_on@ == fail_on@,
            errands_of(final(self).entries()) == errands_of(old(self).entries()).push(errand),
    {
        let ghost before = self.entries();
        let id = self.take_id();
        self.errands.push_back(QueuedErrand { id, errand, reservation, fail_on });
        assert(self.entries().drop_last() =~= before);
        assert(errands_of(self.entries()) =~= errands_of(before).push(errand));
    }

    /// Queues `errand` at the front, ahead of the current entry, with the
    /// failure conditions the errand brings and no reservation.
    pub fn prepend_errand(&mut self, errand: Errand)
        requires
            old(self).wf(),
            old(self).has_room(),
        ensures
            final(self).wf(),
            final(self).spec_next_id() == old(self).spec_next_id() + 1,
            final(self).entries().len() == old(self).entries().len() + 1,
            final(self).entries().drop_first() == old(self).entries(),
            final(self).entries().first().id == old(self).spec_next_id(),
            final(self).entries().first().errand == errand,
            final(self).entries().first().reservation.is_none(),
            final(self).entries().first().fail_on@ == errand.spec_on_enqueued(),
            errands_of(final(self).entries()) == seq![errand] + errands_of(old(self).entries()),
    {
        let fail_on = errand.on_enqueued();
        self.push_front(errand, fail_on);
    }

    /// Queues `errand` at the front like `prepend_errand`, and lets it fail
    /// also when `target` no longer exists.
    pub fn prepend_errand_for_target(&mut self, errand: Errand, target: EntityId)
        requires
            old(self).wf(),
            old(self).has_room(),
        ensures
            final(self).wf(),
            final(self).spec_next_id() == old(self).spec_next_id() + 1,
            final(self).entries().len() == old(self).entries().len() + 1,
            final(self).entries().drop_first() == old(self).entries(),
            final(self).entries().first().id == old(self).spec_next_id(),
            final(self).entries().first().errand == errand,
            final(self).entries().first().reservation.is_none(),
            final(self).entries().first().fail_on@ == errand.spec_on_enqueued().push(
                FailureCondition::TargetRemoved(target),
            ),
            errands_of(final(self).entries()) == seq![errand] + errands_of(old(self).entries()),
    {
        let mut fail_on = errand.on_enqueued();
        fail_on.push(FailureCondition::TargetRemoved(target));
        self.push_front(errand, fail_on);
    }

    fn push_front(&mut self, errand: Errand, fail_on: Vec<FailureCondition>)
        requires
            old(self).wf(),
            old(self).has_room(),
        ensures
            final(self).wf(),
            final(self).spec_next_id() == old(self).spec_next_id() + 1,
            final(self).entries().len() == old(self).entries().len() + 1,
            final(self).entries().drop_first() == old(self).entries(),
            final(self).entries().first().id == old(self).spec_next_id(),
            final(self).entries().first().errand == errand,
            final(self).entries().first().reservation.is_none(),
            final(self).entries().first().fail_on@ == fail_on@,
            errands_of(final(self).entries()) == seq![errand] + errands_of(old(self).entries()),
    {
        let ghost before = self.entries();
        let id = self.take_id();
        self.errands.push_front(QueuedErrand { id, errand, reservation: None, fail_on });
        assert(self.entries().drop_first() =~= before);
        assert(errands_of(self.entries()) =~= seq![errand] + errands_of(before));
    }

    /// Queues `errands` at the back, in order, each with the failure
    /// conditions it brings, no reservation and the next fresh id.
    pub fn append_errands(&mut self, errands: Vec<Errand>)
        requires
            old(self).wf(),
            old(self).spec_next_id() + errands@.len() < u64::MAX,
        ensures
            final(self).wf(),
            final(self).spec_next_id() == old(self).spec_next_id() + errands@.len(),
            errands_of(final(self).entries()) == errands_of(old(self).entries()) + errands@,
            final(self).entries().len() == old(self).entries().len() + errands@.len(),
            final(self).entries().take(old(self).entries().len() as int) == old(self).entries(),
            forall|t: int| 0 <= t < errands@.len() ==> #[trigger] fresh_entry(
                final(self).entries()[old(self).entries().len() + t],
                errands@[t],
                old(self).spec_next_id() + t,
            ),
    {
        let ghost start = errands_of(self.entries());
        let ghost n0 = self.entries().len();
        let mut i: usize = 0;
        while i < errands.len()
            invariant
                self.wf(),
                i <= errands@.len(),
                self.spec_next_id() == old(self).spec_next_id() + i,
                old(self).spec_next_id() + errands@.len() < u64::MAX,
                errands_of(self.entries()) == start + errands@.take(i as int),
                start == errands_of(old(self).entries()),
                n0 == old(self).entries().len(),
                self.entries().len() == n0 + i,
                self.entries().take(n0 as int) == old(self).entries(),
                forall|t: int| 0 <= t < i ==> #[trigger] fresh_entry(
                    self.entries()[n0 + t],
                    errands@[t],
                    old(self).spec_next_id() + t,
                ),
            decreases errands@.len() - i,
        {
            let ghost before = self.entries();
            self.append_independent_errand(errands[i]);
            proof {
                assert forall|t: int| 0 <= t < i + 1 implies #[trigger] fresh_entry(
                    self.entries()[n0 + t],
                    errands@[t],
                    old(self).spec_next_id() + t,
                ) by {
                    if t < i {
                        assert(self.entries()[n0 + t] == before[n0 + t]);
                    }
                }
                assert(self.entries().take(n0 as int) =~= before.take(n0 as int));
            }
            i = i + 1;
            assert(errands@.take(i as int) =~= errands@.take(i - 1).push(errands@[i - 1]));
            assert(start + errands@.take(i as int) =~= (start + errands@.take(i - 1)).push(errands@[i - 1]));
        }
        assert(errands@.take(errands@.len() as int) =~= errands@);
    }

    /// Queues `errands` at the front, ahead of the current entry, keeping
    /// their order; each has the failure conditions it brings and no
    /// reservation, and they get fresh ids from the last one forward.
    pub fn prepend_errands(&mut self, errands: Vec<Errand>)
        requires
            old(self).wf(),
            old(self).spec_next_id() + errands@.len() < u64::MAX,
        ensures
            final(self).wf(),
            final(self).spec_next_id() == old(self).spec_next_id() + errands@.len(),
            errands_of(final(self).entries()) == errands@ + errands_of(old(self).entries()),
            final(self).entries().len() == old(self).entries().len() + errands@.len(),
            final(self).entries().skip(errands@.len() as int) == old(self).entries(),
            forall|t: int| 0 <= t < errands@.len() ==> #[trigger] fresh_entry(
                final(self).entries()[t],
                errands@[t],
                old(self).spec_next_id() + (errands@.len() - 1 - t),
            ),
    {
        let ghost start = errands_of(self.entries());
        let n = errands.len();
        let mut i: usize = n;
        while i > 0
            invariant
                self.wf(),
                i <= n,
                n == errands@.len(),
                self.spec_next_id() == old(self).spec_next_id() + (n - i),
                old(self).spec_next_id() + errands@.len() < u64::MAX,
                errands_of(self.entries()) == errands@.subrange(i as int, n as int) + start,
                start == errands_of(old(self).entries()),
                self.entries().len() == old(self).entries().len() + (n - i),
                self.entries().skip(n - i) == old(self).entries(),
                forall|u: int| 0 <= u < n - i ==> #[trigger] fresh_entry(
                    self.entries()[u],
                    errands@[i + u],
                    old(self).spec_next_id() + (n - 1 - (i + u)),
                ),
            decreases i,
        {
            let ghost before = self.entries();
            i = i - 1;
            self.prepend_errand(errands[i]);
            proof {
                assert forall|u: int| 0 <= u < n - i implies #[trigger] fresh_entry(
                    self.entries()[u],
                    errands@[i + u],
                    old(self).spec_next_id() + (n - 1 - (i + u)),
                ) by {
                    if u > 0 {
                        assert(self.entries()[u] == before[u - 1]);
                        assert(fresh_entry(before[u - 1], errands@[i + 1 + (u - 1)], old(self).spec_next_id() + (n - 1 - (i + 1 + (u - 1)))));
                    }
                }
                assert(self.entries().skip(n - i) =~= before.skip(n - (i + 1)));
            }
            assert(errands@.subrange(i as int, n as int) =~= seq![errands@[i as int]] + errands@.subrange(i + 1, n as int));
            assert(errands@.subrange(i as int, n as int) + start =~= seq![errands@[i as int]] + (errands@.subrange(i + 1, n as int) + start));
        }
        assert(errands@.subrange(0, n as int) =~= errands@);
        assert forall|t: int| 0 <= t < errands@.len() implies #[trigger] fresh_entry(
            self.entries()[t],
            errands@[t],
            old(self).spec_next_id() + (errands@.len() - 1 - t),
        ) by {
            assert(fresh_entry(self.entries()[t], errands@[i + t], old(self).spec_next_id() + (n - 1 - (i + t))));
        }
    }

    /// Drops every entry, and with them the reservations they own.
    pub fn clear(&mut self)
        requires
            old(self).wf(),
        ensures
            final(self).wf(),
            final(self).entries().len() == 0,
            final(self).spec_next_id() == old(self).spec_next_id(),
    {
        self.errands.clear();
    }

    /// Whether another entry can still get a fresh id.
    #[verifier::when_used_as_spec(spec_has_room)]
    pub fn has_room(&self) -> (r: bool)
        ensures
            r == self.spec_has_room(),
    {
        self.next_id < u64::MAX
    }

    pub fn len(&self) -> (r: usize)
        ensures
            r == self.entries().len(),
    {
        self.errands.len()
    }

    /// The id of the front entry, if any.
    pub fn front_id(&self) -> (r: Option<u64>)
        ensures
            r.is_some() == (self.entries().len() > 0),
            r.is_some() ==> r.unwrap() == self.entries()[0].id,
    {
        if self.errands.len() == 0 {
            None
        } else {
            Some(self.errands[0].id)
        }
    }

    /// The entry at position `i`, front first.
    pub fn get(&self, i: usize) -> (r: &QueuedErrand)
        requires
            i < self.entries().len(),
        ensures
            *r == self.entries()[i as int],
    {
        &self.errands[i]
    }

    /// Removes the front entry.
    pub(crate) fn pop_front(&mut self)
        requires
            old(self).wf(),
            old(self).entries().len() > 0,
        ensures
            final(self).wf(),
            final(self).entries() == old(self).entries().drop_first(),
            final(self).spec_next_id() == old(self).spec_next_id(),
    {
        let ghost before = self.entries();
        let _ = self.errands.pop_front();
        assert(self.entries() =~= before.drop_first());
    }

    /// Whether some entry owns a reservation of designation `d`.
    pub fn holds_reservation(&self, d: u64) -> (r: bool)
        ensures
            r == seq_holds(self.entries(), d),
    {
        let mut i: usize = 0;
        while i < self.errands.len()
            invariant
                i <= self.entries().len(),
                forall|k: int| 0 <= k < i ==> !entry_holds(#[trigger] self.entries()[k], d),
            decreases self.entries().len() - i,
        {
            match self.errands[i].reservation {
                Some(r) => {
                    if r.designation == d {
                        assert(entry_holds(self.entries()[i as int], d));
                        return true;
                    }
                },
                None => {},
            }
            i = i + 1;
        }
        false
    }

    /// Drops every entry one of whose failure conditions has come true,
    /// keeping the order of the others.
    pub fn remove_failed(&mut self, live_entities: &Vec<EntityId>, live_designations: &Vec<u64>)
        requires
            old(self).wf(),
        ensures
            final(self).wf(),
            final(self).entries() == surviving(old(self).entries(), live_entities@, live_designations@),
            final(self).spec_next_id() == old(self).spec_next_id(),
    {
        let ghost before = self.entries();
        let mut kept: VecDeque<QueuedErrand> = VecDeque::new();
        let mut k: usize = 0;
        let n = self.errands.len();
        while self.errands.len() > 0
            invariant
                n == before.len(),
                k <= n,
                self.errands@ == before.subrange(k as int, n as int),
                kept@ == surviving(before.take(k as int), live_entities@, live_designations@),
                self.next_id == old(self).next_id,
            decreases self.errands@.len(),
        {
            let e = self.errands.pop_front().unwrap();
            assert(e == before[k as int]);
            assert(before.take(k + 1).drop_last() =~= before.take(k as int));
            assert(before.take(k + 1).last() == e);
            proof {
                reveal(Seq::filter);
            }
            let ghost old_kept = kept@;
            if !e.has_failed(live_entities, live_designations) {
                kept.push_back(e);
                assert(kept@ =~= old_kept.push(e));
            }
            assert(kept@ =~= surviving(before.take(k + 1), live_entities@, live_designations@));
            k = k + 1;
            assert(self.errands@ =~= before.subrange(k as int, n as int));
        }
        assert(before.take(n as int) =~= before);
        self.errands = kept;
        proof {
            assert forall|i: int| 0 <= i < self.entries().len() implies #[trigger] self.entries()[i].id < self.spec_next_id() by {
                let q = self.entries()[i];
                assert(self.entries().contains(q));
                before.lemma_filter_contains_rev(|q: QueuedErrand| !has_failed(q, live_entities@, live_designations@), q);
                assert(before.contains(q));
            }
        }
    }
}

} // verus!
