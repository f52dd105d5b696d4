//! What happens where an entity dies.

use crate::world::{EntityId, WorldPosition};
use vstd::prelude::*;

verus! {

/// Reaction to an entity running out of health: what to spawn in its
/// place, if anything.
pub trait DeathAction<S> {
    fn on_death(&self, entity: EntityId, position: WorldPosition) -> Option<S>;
}

/// The death action attached to an entity.
pub struct OnDeathAction<A> {
    pub action: A,
}

impl<A> OnDeathAction<A> {
    pub fn new(action: A) -> (r: Self)
        ensures
            r.action == action,
    {
        Self { action }
    }
}

/// A request to spawn `model` at `position`.
#[derive(Clone, Debug, PartialEq, Eq)]
pub struct Spawn<M> {
    pub model: M,
    pub position: WorldPosition,
}

/// Leaves a lump of ore, shown by `model`, where a wall was dug out.
pub struct SpawnOre<M> {
    pub model: M,
}

impl<M: Clone> DeathAction<Spawn<M>> for SpawnOre<M> {
    fn on_death(&self, entity: EntityId, position: WorldPosition) -> Option<Spawn<M>> {
        Some(Spawn { model: self.model.clone(), position })
    }
}

} // verus!
