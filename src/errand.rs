//! Errands: the kinds of work a worker can do, queue entries, failure
//! conditions, reservations and the active working state.

use crate::world::{EntityId, WorldPosition};
use vstd::prelude::*;

verus! {

/// The closed set of errand kinds.
#[derive(Clone, Copy, Debug, PartialEq, Eq, Structural, Hash)]
pub enum ErrandKind {
    MoveToPosition,
    Sleep,
    MineWall,
}

/// The fixed global order of each kind, used to iterate kinds
/// deterministically.
pub open spec fn type_order(kind: ErrandKind) -> i32 {
    match kind {
        ErrandKind::MoveToPosition => 0,
        ErrandKind::Sleep => 1000,
        ErrandKind::MineWall => 5000,
    }
}

impl ErrandKind {
    pub fn get_errand_type_order(&self) -> (r: i32)
        ensures
            r == type_order(*self),
    {
        match self {
            ErrandKind::MoveToPosition => 0,
            ErrandKind::Sleep => 1000,
            ErrandKind::MineWall => 5000,
        }
    }
}

/// Dig out the wall `target`.
#[derive(Clone, Copy, Debug, PartialEq, Eq, Structural)]
pub struct MineWallErrand {
    pub target: EntityId,
}

impl MineWallErrand {
    pub fn new(target: EntityId) -> (r: Self)
        ensures
            r.target == target,
    {
        Self { target }
    }
}

/// Walk to `target`; `search_radius` bounds how far from it a standing
/// place may be looked for.
#[derive(Clone, Copy, Debug, PartialEq, Eq, Structural)]
pub struct MoveToPosition {
    pub target: WorldPosition,
    pub search_radius: Option<u32>,
}

impl MoveToPosition {
    pub fn new(target: WorldPosition, search_radius: Option<u32>) -> (r: Self)
        ensures
            r.target == target,
            r.search_radius == search_radius,
    {
        Self { target, search_radius }
    }
}

/// Do nothing for `duration` milliseconds.
#[derive(Clone, Copy, Debug, PartialEq, Eq, Structural)]
pub struct SleepErrand {
    pub duration: u64,
}

/// One unit of work with its parameters.
#[derive(Clone, Copy, Debug, PartialEq, Eq, Structural)]
pub enum Errand {
    MoveToPosition(MoveToPosition),
    Sleep(SleepErrand),
    MineWall(MineWallErrand),
}

impl Errand {
    pub open spec fn spec_kind(self) -> ErrandKind {
        match self {
            Errand::MoveToPosition(_) => ErrandKind::MoveToPosition,
            Errand::Sleep(_) => ErrandKind::Sleep,
            Errand::MineWall(_) => ErrandKind::MineWall,
        }
    }

    pub fn kind(&self) -> (r: ErrandKind)
        ensures
            r == self.spec_kind(),
    {
        match self {
            Errand::MoveToPosition(_) => ErrandKind::MoveToPosition,
            Errand::Sleep(_) => ErrandKind::Sleep,
            Errand::MineWall(_) => ErrandKind::MineWall,
        }
    }

    /// The failure conditions an errand brings when it is queued on its own.
    pub open spec fn spec_on_enqueued(self) -> Seq<FailureCondition> {
        match self {
            Errand::MineWall(m) => seq![FailureCondition::TargetRemoved(m.target)],
            _ => Seq::empty(),
        }
    }

    pub fn on_enqueued(&self) -> (r: Vec<FailureCondition>)
        ensures
            r@ == self.spec_on_enqueued(),
    {
        let mut r: Vec<FailureCondition> = Vec::new();
        match self {
            Errand::MineWall(m) => r.push(FailureCondition::TargetRemoved(m.target)),
            _ => {},
        }
        proof {
            if let Errand::MineWall(m) = *self {
                assert(r@ =~= seq![FailureCondition::TargetRemoved(m.target)]);
            } else {
                assert(r@ =~= Seq::<FailureCondition>::empty());
            }
        }
        r
    }
}

/// A condition under which a queued errand is dropped.
#[derive(Clone, Copy, Debug, PartialEq, Eq, Structural)]
pub enum FailureCondition {
    /// The entity no longer exists.
    TargetRemoved(EntityId),
    /// The designation with this id has been withdrawn or replaced.
    TargetErrandCancelled(u64),
}

/// Whether `c` has come true, given the entities and designations that
/// still exist.
pub open spec fn condition_met(c: FailureCondition, live_entities: Seq<EntityId>, live_designations: Seq<u64>) -> bool {
    match c {
        FailureCondition::TargetRemoved(e) => !live_entities.contains(e),
        FailureCondition::TargetErrandCancelled(d) => !live_designations.contains(d),
    }
}

/// Proof that `reserved_by` holds the designation `designation`.
#[derive(Clone, Copy, Debug, PartialEq, Eq, Structural)]
pub struct Reservation {
    pub designation: u64,
    pub reserved_by: EntityId,
}

/// An entry of a worker's queue.
#[derive(Debug)]
pub struct QueuedErrand {
    pub id: u64,
    pub errand: Errand,
    pub reservation: Option<Reservation>,
    pub fail_on: Vec<FailureCondition>,
}

/// Whether some failure condition of `q` has come true.
pub open spec fn has_failed(q: QueuedErrand, live_entities: Seq<EntityId>, live_designations: Seq<u64>) -> bool {
    exists|i: int| 0 <= i < q.fail_on@.len() && condition_met(#[trigger] q.fail_on@[i], live_entities, live_designations)
}

/// Whether `q` owns a reservation of designation `d`.
pub open spec fn entry_holds(q: QueuedErrand, d: u64) -> bool {
    q.reservation.is_some() && q.reservation.unwrap().designation == d
}

impl QueuedErrand {
    /// An entry for `errand` with no reservation and no failure condition.
    pub fn new(id: u64, errand: Errand) -> (r: Self)
        ensures
            r.id == id,
            r.errand == errand,
            r.reservation.is_none(),
            r.fail_on@.len() == 0,
    {
        Self { id, errand, reservation: None, fail_on: Vec::new() }
    }

    pub fn add_failure_condition(&mut self, condition: FailureCondition)
        ensures
            final(self).id == old(self).id,
            final(self).errand == old(self).errand,
            final(self).reservation == old(self).reservation,
            final(self).fail_on@ == old(self).fail_on@.push(condition),
    {
        self.fail_on.push(condition);
    }

    /// Whether some failure condition of this entry has come true.
    pub fn has_failed(&self, live_entities: &Vec<EntityId>, live_designations: &Vec<u64>) -> (r: bool)
        ensures
            r == has_failed(*self, live_entities@, live_designations@),
    {
        let mut i: usize = 0;
        while i < self.fail_on.len()
            invariant
                i <= self.fail_on@.len(),
                forall|k: int| 0 <= k < i ==> !condition_met(self.fail_on@[k], live_entities@, live_designations@),
            decreases self.fail_on@.len() - i,
        {
            let met = match self.fail_on[i] {
                FailureCondition::TargetRemoved(e) => !contains_entity(live_entities, e),
                FailureCondition::TargetErrandCancelled(d) => !contains_id(live_designations, d),
            };
            if met {
                return true;
            }
            i = i + 1;
        }
        false
    }

    /// The working state this entry turns into when it becomes active.
    pub fn activate(&self) -> (r: WorkingOnErrand)
        ensures
            r == activated(*self),
    {
        WorkingOnErrand {
            id: self.id,
            errand: self.errand,
            reservation: self.reservation,
            is_done: false,
            failed: false,
        }
    }
}

/// Whether `v` holds `e`.
pub fn contains_entity(v: &Vec<EntityId>, e: EntityId) -> (r: bool)
    ensures
        r == v@.contains(e),
{
    let mut i: usize = 0;
    while i < v.len()
        invariant
            i <= v@.len(),
            forall|k: int| 0 <= k < i ==> v@[k] != e,
        decreases v@.len() - i,
    {
        if v[i] == e {
            return true;
        }
        i = i + 1;
    }
    false
}

/// Whether `v` holds `d`.
pub fn contains_id(v: &Vec<u64>, d: u64) -> (r: bool)
    ensures
        r == v@.contains(d),
{
    let mut i: usize = 0;
    while i < v.len()
        invariant
            i <= v@.len(),
            forall|k: int| 0 <= k < i ==> v@[k] != d,
        decreases v@.len() - i,
    {
        if v[i] == d {
            return true;
        }
        i = i + 1;
    }
    false
}

/// The state of a worker while the front entry of its queue is active.
/// Only the errand's executor sets `is_done` or `failed`.
#[derive(Clone, Copy, Debug, PartialEq, Eq, Structural)]
pub struct WorkingOnErrand {
    pub id: u64,
    pub errand: Errand,
    pub reservation: Option<Reservation>,
    pub is_done: bool,
    pub failed: bool,
}

pub open spec fn activated(q: QueuedErrand) -> WorkingOnErrand {
    WorkingOnErrand { id: q.id, errand: q.errand, reservation: q.reservation, is_done: false, failed: false }
}

impl WorkingOnErrand {
    pub fn done(&mut self)
        ensures
            *final(self) == (WorkingOnErrand { is_done: true, ..*old(self) }),
    {
        self.is_done = true;
    }

    pub fn fail(&mut self)
        ensures
            *final(self) == (WorkingOnErrand { failed: true, ..*old(self) }),
    {
        self.failed = true;
    }

    /// Whether the executor has finished with this errand, either way.
    pub open spec fn spec_finished(self) -> bool {
        self.is_done || self.failed
    }
}

} // verus!
