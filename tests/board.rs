use raider_errands::board::ErrandBoard;
use raider_errands::errand::{Errand, ErrandKind, MineWallErrand, MoveToPosition, SleepErrand};
use raider_errands::executors::{mine_wall_action, MineWallAction};
use raider_errands::world::{EntityId, WorldPosition};

fn at(x: i32) -> WorldPosition {
    WorldPosition::new(x, 0, 0)
}

fn mine(target: u64) -> Errand {
    Errand::MineWall(MineWallErrand::new(EntityId::new(target)))
}

fn miner_board(worker: u64, position: WorldPosition) -> (ErrandBoard, usize) {
    let mut board = ErrandBoard::new();
    let w = board.add_worker(EntityId::new(worker), position);
    board.add_capability(w, ErrandKind::MineWall);
    (board, w)
}

#[test]
fn only_one_worker_claims_a_designation() {
    let mut board = ErrandBoard::new();
    let a = board.add_worker(EntityId::new(1), at(0));
    let b = board.add_worker(EntityId::new(2), at(1));
    board.add_capability(a, ErrandKind::MineWall);
    board.add_capability(b, ErrandKind::MineWall);
    let d = board.designate(EntityId::new(10), at(5), mine(10));
    board.assign_available_errands();
    assert!(board.is_claimed(d));
    assert_eq!(board.worker(a).queue.len(), 1);
    assert_eq!(board.worker(b).queue.len(), 0);
    let r = board.worker(a).queue.get(0).reservation.unwrap();
    assert_eq!(r.designation, d);
    assert_eq!(r.reserved_by, EntityId::new(1));
    // later ticks do not hand it to the second worker
    let live = vec![EntityId::new(1), EntityId::new(2), EntityId::new(10)];
    board.tick(&live);
    board.tick(&live);
    assert_eq!(board.worker(b).queue.len(), 0);
    assert!(board.worker(b).working.is_none());
}

#[test]
fn withdrawn_designation_frees_the_worker() {
    let (mut board, w) = miner_board(1, at(0));
    let live = vec![EntityId::new(1), EntityId::new(10)];
    let d = board.designate(EntityId::new(10), at(5), mine(10));
    board.tick(&live);
    assert!(board.worker(w).working.is_some());
    assert!(board.remove_designation(EntityId::new(10)));
    assert!(!board.remove_designation(EntityId::new(10)));
    board.tick(&live);
    assert_eq!(board.worker(w).queue.len(), 0);
    assert!(board.worker(w).working.is_none());
    assert!(!board.is_claimed(d));
}

#[test]
fn destroyed_object_drops_designation_and_claim() {
    let (mut board, w) = miner_board(1, at(0));
    let d = board.designate(EntityId::new(10), at(5), mine(10));
    board.tick(&vec![EntityId::new(1), EntityId::new(10)]);
    assert_eq!(board.worker(w).queue.len(), 1);
    board.check_failed_errands(&vec![EntityId::new(1)]);
    assert_eq!(board.designation_count(), 0);
    assert_eq!(board.worker(w).queue.len(), 0);
    board.cancel_current_task_when_overwritten();
    assert!(!board.is_claimed(d));
}

#[test]
fn replacing_a_designation_cancels_the_old_claim() {
    let (mut board, w) = miner_board(1, at(0));
    let live = vec![EntityId::new(1), EntityId::new(10)];
    let first = board.designate(EntityId::new(10), at(5), mine(10));
    board.tick(&live);
    let second = board.designate(EntityId::new(10), at(5), mine(10));
    assert_ne!(first, second);
    assert_eq!(board.designation_count(), 1);
    board.tick(&live);
    // the old claim is gone; the new designation is claimed afresh
    assert!(!board.is_claimed(first));
    assert!(board.is_claimed(second));
    assert_eq!(board.worker(w).queue.get(0).reservation.unwrap().designation, second);
}

#[test]
fn overwrite_discards_without_completing() {
    let mut board = ErrandBoard::new();
    let w = board.add_worker(EntityId::new(1), at(0));
    let live = vec![EntityId::new(1)];
    board.append_errand(w, Errand::Sleep(SleepErrand { duration: 100 }));
    board.tick(&live);
    let x = board.worker(w).working.unwrap();
    assert_eq!(x.errand, Errand::Sleep(SleepErrand { duration: 100 }));
    board.clear_queue(w);
    let y = Errand::MoveToPosition(MoveToPosition::new(at(3), None));
    board.append_errand(w, y);
    let completed = board.tick(&live);
    assert!(completed.is_empty());
    let now = board.worker(w).working.unwrap();
    assert_eq!(now.errand, y);
    assert_ne!(now.id, x.id);
    assert_eq!(board.worker(w).queue.len(), 1);
}

#[test]
fn done_errand_is_completed_and_popped() {
    let mut board = ErrandBoard::new();
    let w = board.add_worker(EntityId::new(1), at(0));
    let live = vec![EntityId::new(1)];
    board.append_errand(w, Errand::Sleep(SleepErrand { duration: 1 }));
    board.append_errand(w, Errand::Sleep(SleepErrand { duration: 2 }));
    board.tick(&live);
    let first = board.worker(w).working.unwrap();
    board.mark_done(w);
    assert!(board.worker(w).working.unwrap().is_done);
    let completed = board.tick(&live);
    assert_eq!(completed, vec![(EntityId::new(1), first.id)]);
    assert_eq!(board.worker(w).queue.len(), 1);
    assert_eq!(board.worker(w).working.unwrap().errand, Errand::Sleep(SleepErrand { duration: 2 }));
}

#[test]
fn failed_errand_is_dropped_without_retry() {
    let mut board = ErrandBoard::new();
    let w = board.add_worker(EntityId::new(1), at(0));
    let live = vec![EntityId::new(1)];
    board.append_errand(w, Errand::Sleep(SleepErrand { duration: 1 }));
    board.tick(&live);
    board.mark_failed(w);
    let completed = board.tick(&live);
    assert!(completed.is_empty());
    assert_eq!(board.worker(w).queue.len(), 0);
    assert!(board.worker(w).working.is_none());
}

#[test]
fn lower_rank_kind_is_claimed_first() {
    let mut board = ErrandBoard::new();
    let w = board.add_worker(EntityId::new(1), at(0));
    board.add_capability(w, ErrandKind::MineWall);
    board.add_capability(w, ErrandKind::Sleep);
    board.set_priority(w, ErrandKind::MineWall, Some(1));
    board.set_priority(w, ErrandKind::Sleep, Some(2));
    board.designate(EntityId::new(10), at(5), Errand::Sleep(SleepErrand { duration: 7 }));
    board.designate(EntityId::new(11), at(-5), mine(11));
    assert!(board.assign_worker(w));
    assert_eq!(board.worker(w).queue.get(0).errand, mine(11));
}

#[test]
fn rank_beats_global_kind_order() {
    let mut board = ErrandBoard::new();
    let w = board.add_worker(EntityId::new(1), at(0));
    board.add_capability(w, ErrandKind::MineWall);
    board.add_capability(w, ErrandKind::Sleep);
    board.set_priority(w, ErrandKind::MineWall, Some(2));
    board.set_priority(w, ErrandKind::Sleep, Some(1));
    board.designate(EntityId::new(10), at(5), Errand::Sleep(SleepErrand { duration: 7 }));
    board.designate(EntityId::new(11), at(-5), mine(11));
    assert!(board.assign_worker(w));
    assert_eq!(board.worker(w).queue.get(0).errand, Errand::Sleep(SleepErrand { duration: 7 }));
}

#[test]
fn equal_ranks_fall_back_to_kind_order() {
    let mut board = ErrandBoard::new();
    let w = board.add_worker(EntityId::new(1), at(0));
    board.add_capability(w, ErrandKind::MineWall);
    board.add_capability(w, ErrandKind::Sleep);
    board.designate(EntityId::new(11), at(1), mine(11));
    board.designate(EntityId::new(10), at(50), Errand::Sleep(SleepErrand { duration: 7 }));
    assert!(board.assign_worker(w));
    assert_eq!(board.worker(w).queue.get(0).errand, Errand::Sleep(SleepErrand { duration: 7 }));
}

#[test]
fn nearest_designation_is_claimed_first() {
    let (mut board, w) = miner_board(1, at(0));
    board.designate(EntityId::new(20), at(10), mine(20));
    board.designate(EntityId::new(21), at(5), mine(21));
    assert!(board.assign_worker(w));
    assert_eq!(board.worker(w).queue.get(0).errand, mine(21));
}

#[test]
fn claimed_designation_is_skipped_for_the_next_nearest() {
    let mut board = ErrandBoard::new();
    let a = board.add_worker(EntityId::new(1), at(0));
    let b = board.add_worker(EntityId::new(2), at(0));
    board.add_capability(a, ErrandKind::MineWall);
    board.add_capability(b, ErrandKind::MineWall);
    board.designate(EntityId::new(20), at(10), mine(20));
    board.designate(EntityId::new(21), at(5), mine(21));
    board.assign_available_errands();
    assert_eq!(board.worker(a).queue.get(0).errand, mine(21));
    assert_eq!(board.worker(b).queue.get(0).errand, mine(20));
}

#[test]
fn lost_capability_stops_assignment() {
    let (mut board, w) = miner_board(1, at(0));
    board.remove_capability(w, ErrandKind::MineWall);
    board.designate(EntityId::new(20), at(10), mine(20));
    assert!(!board.assign_worker(w));
    assert_eq!(board.worker(w).queue.len(), 0);
    board.add_capability(w, ErrandKind::MineWall);
    assert!(board.assign_worker(w));
    let p = board.worker(w).priorities.get(0);
    assert_eq!(p.priority, Some(5));
    assert!(p.available);
}

#[test]
fn kind_without_rank_is_never_chosen() {
    let (mut board, w) = miner_board(1, at(0));
    board.set_priority(w, ErrandKind::MineWall, None);
    board.designate(EntityId::new(20), at(10), mine(20));
    assert!(!board.assign_worker(w));
}

#[test]
fn priorities_follow_global_kind_order() {
    let mut board = ErrandBoard::new();
    let w = board.add_worker(EntityId::new(1), at(0));
    board.add_capability(w, ErrandKind::MineWall);
    board.add_capability(w, ErrandKind::MoveToPosition);
    board.add_capability(w, ErrandKind::Sleep);
    let p = &board.worker(w).priorities;
    assert_eq!(p.len(), 3);
    assert_eq!(p.get(0).errand_kind, ErrandKind::MoveToPosition);
    assert_eq!(p.get(1).errand_kind, ErrandKind::Sleep);
    assert_eq!(p.get(2).errand_kind, ErrandKind::MineWall);
    assert_eq!(p.get(2).errand_type_order, 5000);
}

#[test]
fn adding_a_worker_twice_keeps_one() {
    let mut board = ErrandBoard::new();
    let a = board.add_worker(EntityId::new(1), at(0));
    let b = board.add_worker(EntityId::new(1), at(9));
    assert_eq!(a, b);
    assert_eq!(board.worker_count(), 1);
    assert_eq!(board.find_worker(EntityId::new(1)), Some(a));
    assert_eq!(board.find_worker(EntityId::new(2)), None);
}

#[test]
fn mining_scenario_runs_to_completion() {
    let worker = EntityId::new(1);
    let wall = EntityId::new(10);
    let wall_position = at(12);
    let (mut board, w) = miner_board(1, at(0));
    board.designate(wall, wall_position, mine(10));
    let mut live = vec![worker, wall];
    let mut health: i32 = 3;

    // tick 1: the idle worker claims the designation
    board.tick(&live);
    assert_eq!(board.worker(w).queue.len(), 1);
    assert_eq!(board.worker(w).queue.get(0).errand, mine(10));
    assert_eq!(board.worker(w).working.unwrap().errand, mine(10));

    // the wall is 12 units away: walk there first
    let action = mine_wall_action(board.worker(w).position, Some(wall_position));
    assert_eq!(action, MineWallAction::MoveCloser(wall_position));
    board.prepend_errand_for_target(w, Errand::MoveToPosition(MoveToPosition::new(wall_position, None)), wall);
    assert_eq!(board.worker(w).queue.len(), 2);

    board.tick(&live);
    let moving = board.worker(w).working.unwrap();
    assert_eq!(moving.errand, Errand::MoveToPosition(MoveToPosition::new(wall_position, None)));

    // arrive and finish the move
    board.set_worker_position(w, at(4));
    board.mark_done(w);
    let completed = board.tick(&live);
    assert_eq!(completed, vec![(worker, moving.id)]);
    assert_eq!(board.worker(w).queue.len(), 1);
    assert_eq!(board.worker(w).working.unwrap().errand, mine(10));

    // dig until the wall gives way
    loop {
        let position = board.worker(w).position;
        let target = if live.contains(&wall) { Some(wall_position) } else { None };
        match mine_wall_action(position, target) {
            MineWallAction::Dig => {
                health -= 1;
                if health <= 0 {
                    live.retain(|e| *e != wall);
                    board.mark_done(w);
                }
            },
            other => panic!("unexpected action {:?}", other),
        }
        board.tick(&live);
        if board.worker(w).queue.len() == 0 {
            break;
        }
    }
    assert_eq!(health, 0);
    assert!(board.worker(w).working.is_none());
    assert_eq!(board.designation_count(), 0);
    assert_eq!(board.find_designation(wall), None);
}

#[test]
fn mine_action_without_wall_is_done() {
    assert_eq!(mine_wall_action(at(0), None), MineWallAction::TargetGone);
    assert_eq!(mine_wall_action(at(0), Some(at(10))), MineWallAction::Dig);
    assert_eq!(mine_wall_action(at(0), Some(at(11))), MineWallAction::MoveCloser(at(11)));
}

#[test]
fn designation_reports_its_kind() {
    let mut board = ErrandBoard::new();
    board.designate(EntityId::new(3), at(1), mine(3));
    let d = board.designation(0);
    assert!(d.is_errand(ErrandKind::MineWall));
    assert!(!d.is_errand(ErrandKind::Sleep));
    assert_eq!(board.find_designation(EntityId::new(3)), Some(0));
}

#[test]
fn distance_is_squared_euclidean() {
    assert_eq!(WorldPosition::new(1, 2, 3).distance_squared(&WorldPosition::new(4, 6, 3)), 25);
    assert_eq!(
        WorldPosition::new(i32::MIN, 0, 0).distance_squared(&WorldPosition::new(i32::MAX, 0, 0)),
        (u32::MAX as u128) * (u32::MAX as u128)
    );
}

#[test]
fn claim_fails_while_another_worker_holds_it() {
    let mut board = ErrandBoard::new();
    let a = board.add_worker(EntityId::new(1), at(0));
    let b = board.add_worker(EntityId::new(2), at(0));
    board.designate(EntityId::new(10), at(5), mine(10));
    assert!(board.claim(a, 0));
    assert!(!board.claim(b, 0));
    assert!(!board.claim(a, 0));
    assert_eq!(board.worker(a).queue.len(), 1);
    assert_eq!(board.worker(b).queue.len(), 0);
    let entry = board.worker(a).queue.get(0);
    assert_eq!(entry.fail_on.len(), 2);
}

#[test]
fn tick_claims_for_an_idle_worker() {
    let (mut board, w) = miner_board(1, at(0));
    let d = board.designate(EntityId::new(10), at(12), mine(10));
    let completed = board.tick(&vec![EntityId::new(1), EntityId::new(10)]);
    assert!(completed.is_empty());
    assert!(board.is_claimed(d));
    let entry = board.worker(w).queue.get(0);
    assert_eq!(entry.errand, mine(10));
    assert_eq!(entry.reservation.unwrap().reserved_by, EntityId::new(1));
}

#[test]
fn pass_of_assignment_gives_each_worker_its_preferred_free_designation() {
    let mut board = ErrandBoard::new();
    let a = board.add_worker(EntityId::new(1), at(0));
    let b = board.add_worker(EntityId::new(2), at(100));
    board.add_capability(a, ErrandKind::MineWall);
    board.add_capability(b, ErrandKind::MineWall);
    board.designate(EntityId::new(20), at(1), mine(20));
    board.designate(EntityId::new(21), at(99), mine(21));
    board.assign_available_errands();
    assert_eq!(board.worker(a).queue.get(0).errand, mine(20));
    assert_eq!(board.worker(b).queue.get(0).errand, mine(21));
}
