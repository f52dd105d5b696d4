//! Which errand kinds a worker can do, and how much it prefers each.

use crate::errand::{type_order, ErrandKind};
use vstd::prelude::*;

verus! {

/// The rank a kind gets when a worker first gains it.
pub const DEFAULT_PRIORITY: u8 = 5;

/// One kind of a worker's table. A lower `priority` is preferred; a kind
/// without one is never chosen.
#[derive(Clone, Copy, Debug, PartialEq, Eq, Structural)]
pub struct WorkerPriority {
    pub priority: Option<u8>,
    pub errand_kind: ErrandKind,
    pub available: bool,
    pub errand_type_order: i32,
}

/// A worker's kinds, ordered by the kinds' fixed global order. Kinds that
/// the worker lost stay in the table, unavailable, with their rank.
pub struct WorkerPriorities {
    priorities: Vec<WorkerPriority>,
}

/// Position of `kind` in `s`, or `s.len()` when it is absent.
pub open spec fn position_of(s: Seq<WorkerPriority>, kind: ErrandKind) -> int
    decreases s.len(),
{
    if s.len() == 0 {
        0
    } else if s[0].errand_kind == kind {
        0
    } else {
        1 + position_of(s.drop_first(), kind)
    }
}

/// `t` is table `s` after gaining the capability for `kind`.
pub open spec fn gained(s: Seq<WorkerPriority>, kind: ErrandKind, t: Seq<WorkerPriority>) -> bool {
    let p = position_of(s, kind);
    if p < s.len() {
        t == s.update(p, WorkerPriority { available: true, ..s[p] })
    } else {
        exists|j: int|
            0 <= j <= s.len() && t == s.insert(
                j,
                WorkerPriority {
                    priority: Some(DEFAULT_PRIORITY),
                    errand_kind: kind,
                    available: true,
                    errand_type_order: type_order(kind),
                },
            )
    }
}

/// `t` is table `s` after losing the capability for `kind`.
pub open spec fn lost(s: Seq<WorkerPriority>, kind: ErrandKind, t: Seq<WorkerPriority>) -> bool {
    let p = position_of(s, kind);
    if p < s.len() {
        t == s.update(p, WorkerPriority { available: false, ..s[p] })
    } else {
        t == s
    }
}

/// `t` is table `s` with the rank of `kind` set to `priority`.
pub open spec fn reranked(s: Seq<WorkerPriority>, kind: ErrandKind, priority: Option<u8>, t: Seq<WorkerPriority>) -> bool {
    let p = position_of(s, kind);
    if p < s.len() {
        t == s.update(p, WorkerPriority { priority, ..s[p] })
    } else {
        t == s
    }
}

pub proof fn lemma_position_of(s: Seq<WorkerPriority>, kind: ErrandKind)
    ensures
        0 <= position_of(s, kind) <= s.len(),
        position_of(s, kind) < s.len() ==> s[position_of(s, kind)].errand_kind == kind,
        forall|i: int| 0 <= i < position_of(s, kind) ==> s[i].errand_kind != kind,
    decreases s.len(),
{
    if s.len() > 0 && s[0].errand_kind != kind {
        lemma_position_of(s.drop_first(), kind);
        assert forall|i: int| 0 <= i < position_of(s, kind) implies s[i].errand_kind != kind by {
            if i > 0 {
                assert(s[i] == s.drop_first()[i - 1]);
            }
        }
    }
}

impl WorkerPriorities {
    pub closed spec fn entries(&self) -> Seq<WorkerPriority> {
        self.priorities@
    }

    /// Each entry carries its kind's global order, and the entries are
    /// strictly ordered by it, so no kind appears twice.
    pub open spec fn wf(&self) -> bool {
        &&& forall|i: int| 0 <= i < self.entries().len() ==>
            (#[trigger] self.entries()[i]).errand_type_order == type_order(self.entries()[i].errand_kind)
        &&& forall|i: int, j: int| 0 <= i < j < self.entries().len() ==>
            (#[trigger] self.entries()[i]).errand_type_order < (#[trigger] self.entries()[j]).errand_type_order
    }

    pub fn new() -> (r: Self)
        ensures
            r.wf(),
            r.entries().len() == 0,
    {
        Self { priorities: Vec::new() }
    }

    pub fn len(&self) -> (r: usize)
        ensures
            r == self.entries().len(),
    {
        self.priorities.len()
    }

    pub fn get(&self, i: usize) -> (r: WorkerPriority)
        requires
            i < self.entries().len(),
        ensures
            r == self.entries()[i as int],
    {
        self.priorities[i]
    }

    fn find(&self, kind: ErrandKind) -> (r: usize)
        ensures
            r == position_of(self.entries(), kind),
    {
        proof {
            lemma_position_of(self.entries(), kind);
        }
        let mut i: usize = 0;
        while i < self.priorities.len()
            invariant
                i <= self.entries().len(),
                forall|k: int| 0 <= k < i ==> self.entries()[k].errand_kind != kind,
                0 <= position_of(self.entries(), kind) <= self.entries().len(),
                position_of(self.entries(), kind) < self.entries().len() ==>
                    self.entries()[position_of(self.entries(), kind)].errand_kind == kind,
                forall|k: int| 0 <= k < position_of(self.entries(), kind) ==> self.entries()[k].errand_kind != kind,
            decreases self.entries().len() - i,
        {
            if self.priorities[i].errand_kind == kind {
                return i;
            }
            i = i + 1;
        }
        i
    }

    /// The worker gained the capability for `kind`: mark it available, or
    /// add it at the default rank in its place in the global order.
    pub fn add_capability(&mut self, kind: ErrandKind)
        requires
            old(self).wf(),
        ensures
            final(self).wf(),
            gained(old(self).entries(), kind, final(self).entries()),
    {
        proof {
            lemma_position_of(self.entries(), kind);
        }
        let p = self.find(kind);
        if p < self.priorities.len() {
            let mut e = self.priorities[p];
            e.available = true;
            self.priorities.set(p, e);
        } else {
            let order = kind.get_errand_type_order();
            let entry = WorkerPriority {
                priority: Some(DEFAULT_PRIORITY),
                errand_kind: kind,
                available: true,
                errand_type_order: order,
            };
            let mut j: usize = 0;
            while j < self.priorities.len() && self.priorities[j].errand_type_order < order
                invariant
                    j <= self.entries().len(),
                    forall|k: int| 0 <= k < j ==> self.entries()[k].errand_type_order < order,
                decreases self.entries().len() - j,
            {
                j = j + 1;
            }
            let ghost before = self.entries();
            self.priorities.insert(j, entry);
            proof {
                assert forall|k: int| 0 <= k < before.len() implies before[k].errand_type_order != order by {
                    assert(before[k].errand_type_order == type_order(before[k].errand_kind));
                    assert(before[k].errand_kind != kind);
                    if before[k].errand_type_order == order {
                        lemma_type_order_injective(before[k].errand_kind, kind);
                    }
                }
                assert(self.entries() == before.insert(j as int, entry));
            }
        }
    }

    /// The worker lost the capability for `kind`: keep its entry, unavailable.
    pub fn remove_capability(&mut self, kind: ErrandKind)
        requires
            old(self).wf(),
        ensures
            final(self).wf(),
            lost(old(self).entries(), kind, final(self).entries()),
    {
        let p = self.find(kind);
        if p < self.priorities.len() {
            let mut e = self.priorities[p];
            e.available = false;
            self.priorities.set(p, e);
        }
    }

    /// Sets the rank of `kind`, if the worker has an entry for it.
    pub fn set_priority(&mut self, kind: ErrandKind, priority: Option<u8>)
        requires
            old(self).wf(),
        ensures
            final(self).wf(),
            reranked(old(self).entries(), kind, priority, final(self).entries()),
    {
        let p = self.find(kind);
        if p < self.priorities.len() {
            let mut e = self.priorities[p];
            e.priority = priority;
            self.priorities.set(p, e);
        }
    }
}

proof fn lemma_type_order_injective(a: ErrandKind, b: ErrandKind)
    requires
        type_order(a) == type_order(b),
    ensures
        a == b,
{
}

} // verus!
