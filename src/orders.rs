//! Orders the player gives to selected workers, and the markers that say
//! which entities take part in them.

use crate::board::{same_worker, ErrandBoard};
use crate::errand::{Errand, ErrandKind, MineWallErrand, MoveToPosition};
use crate::interaction::{order_queued, InteractedWith};
use crate::world::WorldPosition;
use vstd::prelude::*;

verus! {

/// Marks an entity the player has selected.
#[derive(Clone, Copy, Debug, PartialEq, Eq, Structural)]
pub struct Selected;

/// Marks an entity the player can select; the selection ring is drawn at
/// `selection_ring_offset` from it.
#[derive(Clone, Copy, Debug, PartialEq, Eq, Structural)]
pub struct Selectable {
    pub selection_ring_offset: WorldPosition,
}

/// Marks an entity the player can interact with.
#[derive(Clone, Copy, Debug, PartialEq, Eq, Structural)]
pub struct PlayerInteractable;

/// Marks a worker the player can send places.
#[derive(Clone, Copy, Debug, PartialEq, Eq, Structural)]
pub struct PlayerMovable;

/// Marks ground a worker can be sent to.
#[derive(Clone, Copy, Debug, PartialEq, Eq, Structural)]
pub struct Standable;

/// Marks a worker that can mine walls.
#[derive(Clone, Copy, Debug, PartialEq, Eq, Structural)]
pub struct Miner;

impl Miner {
    /// The errand kind this marker makes a worker capable of.
    pub fn errand_kind(&self) -> (r: ErrandKind)
        ensures
            r == ErrandKind::MineWall,
    {
        ErrandKind::MineWall
    }
}

/// Whether, once the order `errand` has been handed to the listed workers,
/// each of them that had room in its queue got it, in place of its queue
/// or after it as `append` says, and each without room is unchanged.
pub open spec fn ordered(board: ErrandBoard, before: ErrandBoard, workers: Seq<usize>, errand: Errand, append: bool) -> bool {
    forall|k: int| 0 <= k < workers.len() ==> #[trigger] order_given(board, before, workers[k] as int, errand, append)
}

/// Whether worker `w` of `board` is worker `w` of `before` after an order
/// for `errand`, when it had room for it.
pub open spec fn order_given(board: ErrandBoard, before: ErrandBoard, w: int, errand: Errand, append: bool) -> bool {
    if before.workers()[w].queue.has_room() {
        &&& same_worker(board.workers()[w], before.workers()[w])
        &&& board.workers()[w].working == before.workers()[w].working
        &&& order_queued(before.workers()[w].queue, board.workers()[w].queue, errand, append)
    } else {
        board.workers()[w] == before.workers()[w]
    }
}

/// Whether `board` differs from `before` only in the listed workers.
pub open spec fn only_listed_changed(board: ErrandBoard, before: ErrandBoard, workers: Seq<usize>) -> bool {
    &&& board.designations() == before.designations()
    &&& board.workers().len() == before.workers().len()
    &&& forall|j: int| 0 <= j < before.workers().len() && !workers.contains(j as usize) ==> board.workers()[j] == before.workers()[j]
}

/// Hands the order `errand` of `event` to every listed worker that has room
/// in its queue.
fn give_order(board: &mut ErrandBoard, event: &InteractedWith, workers: &Vec<usize>, errand: Errand)
    requires
        old(board).wf(),
        workers@.no_duplicates(),
        forall|k: int| 0 <= k < workers@.len() ==> (#[trigger] workers@[k] as int) < old(board).workers().len(),
    ensures
        final(board).wf(),
        only_listed_changed(*final(board), *old(board), workers@),
        ordered(*final(board), *old(board), workers@, errand, event.append),
{
    let ghost start = *board;
    let mut k: usize = 0;
    while k < workers.len()
        invariant
            board.wf(),
            k <= workers@.len(),
            workers@.no_duplicates(),
            forall|m: int| 0 <= m < workers@.len() ==> (#[trigger] workers@[m] as int) < start.workers().len(),
            board.designations() == start.designations(),
            board.workers().len() == start.workers().len(),
            forall|j: int| 0 <= j < start.workers().len() && !workers@.take(k as int).contains(j as usize) ==>
                #[trigger] board.workers()[j] == start.workers()[j],
            forall|m: int| 0 <= m < k ==> #[trigger] order_given(*board, start, workers@[m] as int, errand, event.append),
        decreases workers@.len() - k,
    {
        let i = workers[k];
        let ghost before = *board;
        proof {
            if workers@.take(k as int).contains(i) {
                let m = choose|m: int| 0 <= m < k && workers@.take(k as int)[m] == i;
                assert(workers@[m] == workers@[k as int]);
            }
            assert(board.workers()[i as int] == start.workers()[i as int]);
        }
        if board.worker(i).queue.has_room() {
            event.add_interaction_to_queue(board, i, errand);
        }
        proof {
            assert(order_given(*board, start, i as int, errand, event.append));
            assert forall|m: int| 0 <= m < k + 1 implies #[trigger] order_given(*board, start, workers@[m] as int, errand, event.append) by {
                if m < k {
                    assert(order_given(before, start, workers@[m] as int, errand, event.append));
                    assert(workers@[m] != i);
                    assert(board.workers()[workers@[m] as int] == before.workers()[workers@[m] as int]);
                }
            }
            assert forall|j: int| 0 <= j < start.workers().len() && !workers@.take(k + 1).contains(j as usize) implies
                #[trigger] board.workers()[j] == start.workers()[j] by {
                assert(workers@.take(k + 1)[k as int] == i);
                if workers@.take(k as int).contains(j as usize) {
                    let m = choose|m: int| 0 <= m < k && workers@.take(k as int)[m] == j as usize;
                    assert(workers@.take(k + 1)[m] == j as usize);
                }
            }
        }
        k = k + 1;
    }
    proof {
        assert(workers@.take(workers@.len() as int) =~= workers@);
    }
}

/// Sends every listed worker, each selected and movable (each listed once),
/// to the point the player clicked, when what was clicked is ground to
/// stand on.
pub fn move_selected_raider_to_target(
    board: &mut ErrandBoard,
    event: &InteractedWith,
    target: Option<Standable>,
    raiders: &Vec<(usize, Selected, PlayerMovable)>,
)
    requires
        old(board).wf(),
        raiders@.map_values(|r: (usize, Selected, PlayerMovable)| r.0).no_duplicates(),
        forall|k: int| 0 <= k < raiders@.len() ==> ((#[trigger] raiders@[k]).0 as int) < old(board).workers().len(),
    ensures
        final(board).wf(),
        target.is_none() ==> *final(board) == *old(board),
        target.is_some() ==> {
            let moved = raiders@.map_values(|r: (usize, Selected, PlayerMovable)| r.0);
            &&& only_listed_changed(*final(board), *old(board), moved)
            &&& ordered(*final(board), *old(board), moved, Errand::MoveToPosition(MoveToPosition { target: event.interaction, search_radius: None }), event.append)
        },
{
    if target.is_some() {
        let mut ids: Vec<usize> = Vec::new();
        let mut k: usize = 0;
        while k < raiders.len()
            invariant
                k <= raiders@.len(),
                ids@ == raiders@.take(k as int).map_values(|r: (usize, Selected, PlayerMovable)| r.0),
            decreases raiders@.len() - k,
        {
            ids.push(raiders[k].0);
            k = k + 1;
            assert(ids@ =~= raiders@.take(k as int).map_values(|r: (usize, Selected, PlayerMovable)| r.0));
        }
        assert(raiders@.take(raiders@.len() as int) =~= raiders@);
        give_order(board, event, &ids, Errand::MoveToPosition(MoveToPosition::new(event.interaction, None)));
    }
}

/// Sets every listed worker, each selected and a miner (each listed once),
/// to mining the wall the player clicked, when what was clicked can be
/// mined.
pub fn start_mining_wall(
    board: &mut ErrandBoard,
    event: &InteractedWith,
    target_minable: bool,
    miners: &Vec<(usize, Selected, Miner)>,
)
    requires
        old(board).wf(),
        miners@.map_values(|r: (usize, Selected, Miner)| r.0).no_duplicates(),
        forall|k: int| 0 <= k < miners@.len() ==> ((#[trigger] miners@[k]).0 as int) < old(board).workers().len(),
    ensures
        final(board).wf(),
        !target_minable ==> *final(board) == *old(board),
        target_minable ==> {
            let set = miners@.map_values(|r: (usize, Selected, Miner)| r.0);
            &&& only_listed_changed(*final(board), *old(board), set)
            &&& ordered(*final(board), *old(board), set, Errand::MineWall(MineWallErrand { target: event.entity }), event.append)
        },
{
    if target_minable {
        let mut ids: Vec<usize> = Vec::new();
        let mut k: usize = 0;
        while k < miners.len()
            invariant
                k <= miners@.len(),
                ids@ == miners@.take(k as int).map_values(|r: (usize, Selected, Miner)| r.0),
            decreases miners@.len() - k,
        {
            ids.push(miners[k].0);
            k = k + 1;
            assert(ids@ =~= miners@.take(k as int).map_values(|r: (usize, Selected, Miner)| r.0));
        }
        assert(miners@.take(miners@.len() as int) =~= miners@);
        give_order(board, event, &ids, Errand::MineWall(MineWallErrand::new(event.entity)));
    }
}

} // verus!
