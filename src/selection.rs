//! The set of selected entities and the requests that change it.

use crate::world::EntityId;
use vstd::prelude::*;

verus! {

/// A request to change the selection.
#[derive(Clone, Copy, Debug, PartialEq, Eq, Structural)]
pub enum WantToSelect {
    /// Add the entity to the selection.
    Additionally(EntityId),
    /// Make the entity the only selected one.
    Exclusively(EntityId),
    /// Select nothing.
    Clear,
}

/// Whether `x` is selected once `event` has been applied to `before`.
pub open spec fn selected_after(before: Seq<EntityId>, event: WantToSelect, x: EntityId) -> bool {
    match event {
        WantToSelect::Additionally(e) => before.contains(x) || x == e,
        WantToSelect::Exclusively(e) => x == e,
        WantToSelect::Clear => false,
    }
}

/// Applies `event` to the selection `selected`, which holds no entity twice.
pub fn apply_select(selected: &mut Vec<EntityId>, event: WantToSelect)
    requires
        old(selected)@.no_duplicates(),
    ensures
        final(selected)@.no_duplicates(),
        forall|x: EntityId| final(selected)@.contains(x) <==> selected_after(old(selected)@, event, x),
{
    match event {
        WantToSelect::Additionally(e) => {
            let mut present = false;
            let mut i: usize = 0;
            while i < selected.len()
                invariant
                    i <= selected@.len(),
                    present == exists|k: int| 0 <= k < i && selected@[k] == e,
                decreases selected@.len() - i,
            {
                if selected[i] == e {
                    present = true;
                }
                i = i + 1;
            }
            if !present {
                let ghost before = selected@;
                selected.push(e);
                proof {
                    assert forall|a: int, b: int| 0 <= a < b < selected@.len() implies selected@[a] != selected@[b] by {
                        if b == before.len() {
                            assert(before[a] != e);
                        } else {
                            assert(before[a] != before[b]);
                        }
                    }
                    assert forall|x: EntityId| selected@.contains(x) <==> (before.contains(x) || x == e) by {
                        if before.contains(x) {
                            let k = choose|k: int| 0 <= k < before.len() && before[k] == x;
                            assert(selected@[k] == x);
                        }
                        if x == e {
                            assert(selected@[before.len() as int] == e);
                        }
                    }
                }
            }
        },
        WantToSelect::Exclusively(e) => {
            selected.clear();
            selected.push(e);
            assert(selected@[0] == e);
        },
        WantToSelect::Clear => {
            selected.clear();
        },
    }
}

} // verus!
