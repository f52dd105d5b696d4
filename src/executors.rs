//! Decisions of the errand executors that do not depend on how a worker
//! moves: following a path, and mining a wall.

use crate::game_level::TILE_SIZE;
use crate::world::{distance_squared, WorldPosition};
use vstd::prelude::*;

verus! {

/// A path being walked: its waypoints and the index of the next one.
#[derive(Clone, Debug)]
pub struct PathTracker {
    pub path: Vec<WorldPosition>,
    pub next: usize,
}

impl PathTracker {
    pub fn new(path: Vec<WorldPosition>) -> (r: Self)
        ensures
            r.path@ == path@,
            r.next == 0,
    {
        Self { path, next: 0 }
    }

    /// The waypoint to walk to, or `None` once the path is done.
    pub fn next(&self) -> (r: Option<WorldPosition>)
        ensures
            r == if self.next < self.path@.len() {
                Some(self.path@[self.next as int])
            } else {
                None
            },
    {
        if self.next < self.path.len() {
            Some(self.path[self.next])
        } else {
            None
        }
    }

    /// The next waypoint has been reached.
    pub fn advance(&mut self)
        requires
            old(self).next < old(self).path@.len(),
        ensures
            final(self).path@ == old(self).path@,
            final(self).next == old(self).next + 1,
    {
        let n = self.path.len();
        assert(self.next < n);
        self.next = self.next + 1;
    }
}

/// What a worker mining a wall does this tick.
#[derive(Clone, Copy, Debug, PartialEq, Eq, Structural)]
pub enum MineWallAction {
    /// The wall is gone: the errand is done.
    TargetGone,
    /// The wall is more than a tile away: walk to it first.
    MoveCloser(WorldPosition),
    /// Dig at the wall.
    Dig,
}

/// The mining executor's decision for a miner at `miner` and the wall at
/// `wall`, if the wall still exists.
pub fn mine_wall_action(miner: WorldPosition, wall: Option<WorldPosition>) -> (r: MineWallAction)
    ensures
        r == match wall {
            None => MineWallAction::TargetGone,
            Some(w) => if distance_squared(w, miner) > TILE_SIZE * TILE_SIZE {
                MineWallAction::MoveCloser(w)
            } else {
                MineWallAction::Dig
            },
        },
{
    match wall {
        None => MineWallAction::TargetGone,
        Some(w) => {
            if w.distance_squared(&miner) > (TILE_SIZE as u128) * (TILE_SIZE as u128) {
                MineWallAction::MoveCloser(w)
            } else {
                MineWallAction::Dig
            }
        },
    }
}

} // verus!
