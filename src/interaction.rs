//! Player input turned into selection requests and orders for workers.

use crate::board::{only_worker_changed, same_worker, ErrandBoard};
use crate::errand::Errand;
use crate::errand_queue::ErrandQueue;
use crate::orders::{PlayerInteractable, Selectable};
use crate::selection::WantToSelect;
use crate::world::{EntityId, WorldPosition};
use vstd::prelude::*;

verus! {

/// The actions the player's input is bound to.
#[derive(PartialEq, Eq, Structural, Clone, Copy, Hash, Debug)]
pub enum ControlAction {
    Move,
    Zoom,
    Rotate,
    MoveFast,
    Select,
    SelectAdditional,
    Interact,
    InteractAdditional,
}

/// The entity under the mouse, and where the pointer ray meets it.
#[derive(Clone, Copy, Debug, PartialEq, Eq, Structural)]
pub struct MouseTargetedEntityTarget {
    pub entity: EntityId,
    pub intersection: WorldPosition,
}

/// What the mouse points at, if anything.
#[derive(Clone, Copy, Debug, PartialEq, Eq, Structural)]
pub struct MouseTargetedEntity {
    pub target: Option<MouseTargetedEntityTarget>,
}

/// The player ordered interaction with `entity` at `interaction`; with
/// `append` the order joins the workers' queues instead of replacing them.
#[derive(Clone, Copy, Debug, PartialEq, Eq, Structural)]
pub struct InteractedWith {
    pub entity: EntityId,
    pub interaction: WorldPosition,
    pub append: bool,
}

/// `q1` is queue `q0` after an order for `errand`: the order's entry takes
/// the queue's place, or follows it when the order appends.
pub open spec fn order_queued(q0: ErrandQueue, q1: ErrandQueue, errand: Errand, append: bool) -> bool {
    &&& q1.entries().len() >= 1
    &&& q1.entries().drop_last() == if append { q0.entries() } else { Seq::empty() }
    &&& q1.spec_next_id() == q0.spec_next_id() + 1
    &&& q1.entries().last().id == q0.spec_next_id()
    &&& q1.entries().last().errand == errand
    &&& q1.entries().last().reservation.is_none()
    &&& q1.entries().last().fail_on@ == errand.spec_on_enqueued()
}

/// Whether `action` is among the actions pressed this frame.
pub fn just_pressed(pressed: &Vec<ControlAction>, action: ControlAction) -> (r: bool)
    ensures
        r == pressed@.contains(action),
{
    let mut i: usize = 0;
    while i < pressed.len()
        invariant
            i <= pressed@.len(),
            forall|k: int| 0 <= k < i ==> pressed@[k] != action,
        decreases pressed@.len() - i,
    {
        if pressed[i] == action {
            return true;
        }
        i = i + 1;
    }
    false
}

/// The selection request a click makes: with `Select` or
/// `SelectAdditional` pressed and a selectable entity under the mouse
/// (`target` is its marker, if it has one), it
/// selects that entity, alone or in addition.
pub fn select_things(pressed: &Vec<ControlAction>, mouse_target: &MouseTargetedEntity, target: Option<Selectable>) -> (r: Option<WantToSelect>)
    ensures
        r == if (pressed@.contains(ControlAction::Select) || pressed@.contains(ControlAction::SelectAdditional))
            && mouse_target.target.is_some() && target.is_some() {
            if pressed@.contains(ControlAction::SelectAdditional) {
                Some(WantToSelect::Additionally(mouse_target.target.unwrap().entity))
            } else {
                Some(WantToSelect::Exclusively(mouse_target.target.unwrap().entity))
            }
        } else {
            None
        },
{
    let selectable = target;
    let additional = just_pressed(pressed, ControlAction::SelectAdditional);
    if just_pressed(pressed, ControlAction::Select) || additional {
        match mouse_target.target {
            Some(hit) => {
                if selectable.is_some() {
                    if additional {
                        return Some(WantToSelect::Additionally(hit.entity));
                    } else {
                        return Some(WantToSelect::Exclusively(hit.entity));
                    }
                }
            },
            None => {},
        }
    }
    None
}

/// The order a click makes: with `Interact` or `InteractAdditional` pressed
/// and an interactable entity under the mouse (`target` is its marker, if
/// it has one), it orders interaction with
/// it, appended to the queues with `InteractAdditional`.
pub fn interact_with_things(pressed: &Vec<ControlAction>, mouse_target: &MouseTargetedEntity, target: Option<PlayerInteractable>) -> (r: Option<InteractedWith>)
    ensures
        r == if (pressed@.contains(ControlAction::Interact) || pressed@.contains(ControlAction::InteractAdditional))
            && mouse_target.target.is_some() && target.is_some() {
            Some(InteractedWith {
                entity: mouse_target.target.unwrap().entity,
                interaction: mouse_target.target.unwrap().intersection,
                append: pressed@.contains(ControlAction::InteractAdditional),
            })
        } else {
            None
        },
{
    let interactable = target;
    let additional = just_pressed(pressed, ControlAction::InteractAdditional);
    if just_pressed(pressed, ControlAction::Interact) || additional {
        match mouse_target.target {
            Some(hit) => {
                if interactable.is_some() {
                    return Some(InteractedWith::new(hit.entity, hit.intersection, additional));
                }
            },
            None => {},
        }
    }
    None
}

impl InteractedWith {
    pub fn new(entity: EntityId, interaction: WorldPosition, append: bool) -> (r: Self)
        ensures
            r == (InteractedWith { entity, interaction, append }),
    {
        Self { entity, interaction, append }
    }

    /// Gives worker `i` the ordered `errand`: after its queue unless the
    /// order appends, in place of it otherwise.
    pub fn add_interaction_to_queue(&self, board: &mut ErrandBoard, i: usize, errand: Errand)
        requires
            old(board).wf(),
            i < old(board).workers().len(),
            old(board).workers()[i as int].queue.has_room(),
        ensures
            final(board).wf(),
            final(board).designations() == old(board).designations(),
            only_worker_changed(old(board).workers(), final(board).workers(), i as int),
            same_worker(final(board).workers()[i as int], old(board).workers()[i as int]),
            final(board).workers()[i as int].working == old(board).workers()[i as int].working,
            order_queued(
                old(board).workers()[i as int].queue,
                final(board).workers()[i as int].queue,
                errand,
                self.append,
            ),
    {
        if !self.append {
            board.clear_queue(i);
        }
        board.append_errand(i, errand);
        proof {
            let q1 = board.workers()[i as int].queue;
            if !self.append {
                assert(q1.entries().drop_last() =~= Seq::empty());
            }
        }
    }
}

} // verus!
