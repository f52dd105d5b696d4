//! Work assignment for autonomous workers: per-worker errand queues,
//! designations that at most one worker can claim, capability priorities,
//! nearest-first assignment and the per-tick lifecycle, together with the
//! tile grid of the level they work in.

pub mod world;
pub mod grid;
pub mod game_level;
pub mod errand;
pub mod errand_queue;
pub mod priorities;
pub mod board;
pub mod selection;
pub mod interaction;
pub mod gizmos;
pub mod executors;
pub mod health;
pub mod orders;
pub mod game_level_render;
