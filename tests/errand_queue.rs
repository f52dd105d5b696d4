use raider_errands::errand::{Errand, MineWallErrand, SleepErrand};
use raider_errands::errand_queue::ErrandQueue;
use raider_errands::world::EntityId;

fn sleep(duration: u64) -> Errand {
    Errand::Sleep(SleepErrand { duration })
}

fn assert_errand_value(queue: &ErrandQueue, index: usize, expected_value: u64) {
    assert_eq!(queue.get(index).errand, sleep(expected_value));
}

#[test]
fn errand_queue_adds_multiple_items_in_correct_order_2() {
    let mut queue = ErrandQueue::new();
    queue.append_errands(vec![sleep(1), sleep(2)]);

    assert_eq!(queue.len(), 2);
    assert_errand_value(&queue, 0, 1);
    assert_errand_value(&queue, 1, 2);
}

#[test]
fn errand_queue_adds_multiple_items_in_correct_order_3() {
    let mut queue = ErrandQueue::new();
    queue.append_errands(vec![sleep(1), sleep(2), sleep(3)]);

    assert_eq!(queue.len(), 3);
    assert_errand_value(&queue, 0, 1);
    assert_errand_value(&queue, 1, 2);
    assert_errand_value(&queue, 2, 3);
}

#[test]
fn errand_queue_prepends_multiple_items_in_correct_order_2() {
    let mut queue = ErrandQueue::new();
    queue.prepend_errands(vec![sleep(1), sleep(2)]);

    assert_eq!(queue.len(), 2);
    assert_errand_value(&queue, 0, 1);
    assert_errand_value(&queue, 1, 2);
}

#[test]
fn errand_queue_prepends_multiple_items_in_correct_order_2_multiple_calls() {
    let mut queue = ErrandQueue::new();
    queue.prepend_errands(vec![sleep(1), sleep(2)]);
    queue.prepend_errands(vec![sleep(3), sleep(4)]);

    assert_eq!(queue.len(), 4);
    assert_errand_value(&queue, 0, 3);
    assert_errand_value(&queue, 1, 4);
    assert_errand_value(&queue, 2, 1);
    assert_errand_value(&queue, 3, 2);
}

#[test]
fn errand_queue_prepends_multiple_items_in_correct_order_3() {
    let mut queue = ErrandQueue::new();
    queue.prepend_errands(vec![sleep(1), sleep(2), sleep(3)]);

    assert_eq!(queue.len(), 3);
    assert_errand_value(&queue, 0, 1);
    assert_errand_value(&queue, 1, 2);
    assert_errand_value(&queue, 2, 3);
}

#[test]
fn append_then_append_keeps_order() {
    let mut queue = ErrandQueue::new();
    queue.append_independent_errand(sleep(10));
    queue.append_independent_errand(sleep(20));
    assert_errand_value(&queue, 0, 10);
    assert_errand_value(&queue, 1, 20);
}

#[test]
fn prepend_then_prepend_reverses_order() {
    let mut queue = ErrandQueue::new();
    queue.prepend_errand(sleep(10));
    queue.prepend_errand(sleep(20));
    assert_errand_value(&queue, 0, 20);
    assert_errand_value(&queue, 1, 10);
}

#[test]
fn ids_grow_and_survive_clear() {
    let mut queue = ErrandQueue::new();
    queue.append_independent_errand(sleep(1));
    queue.prepend_errand(sleep(2));
    assert_eq!(queue.front_id(), Some(2));
    assert_eq!(queue.get(1).id, 1);
    queue.clear();
    assert_eq!(queue.len(), 0);
    assert_eq!(queue.front_id(), None);
    queue.append_independent_errand(sleep(3));
    assert_eq!(queue.front_id(), Some(3));
}

#[test]
fn mining_errand_fails_without_its_wall() {
    let wall = EntityId::new(9);
    let mut queue = ErrandQueue::new();
    queue.append_independent_errand(Errand::MineWall(MineWallErrand::new(wall)));
    queue.append_independent_errand(sleep(1));
    assert!(!queue.get(0).has_failed(&vec![wall], &vec![]));
    assert!(queue.get(0).has_failed(&vec![], &vec![]));
    assert!(!queue.get(1).has_failed(&vec![], &vec![]));
    queue.remove_failed(&vec![], &vec![]);
    assert_eq!(queue.len(), 1);
    assert_errand_value(&queue, 0, 1);
}

#[test]
fn prepended_move_fails_with_its_target() {
    let wall = EntityId::new(4);
    let mut queue = ErrandQueue::new();
    queue.prepend_errand_for_target(sleep(5), wall);
    assert!(!queue.get(0).has_failed(&vec![wall], &vec![]));
    assert!(queue.get(0).has_failed(&vec![EntityId::new(5)], &vec![]));
}

#[test]
fn appended_and_prepended_batches_get_fresh_ids() {
    let wall = EntityId::new(7);
    let mut queue = ErrandQueue::new();
    queue.append_errands(vec![sleep(1), Errand::MineWall(MineWallErrand::new(wall))]);
    assert_eq!(queue.get(0).id, 1);
    assert_eq!(queue.get(1).id, 2);
    assert_eq!(queue.get(1).fail_on.len(), 1);
    assert!(queue.get(1).reservation.is_none());
    queue.prepend_errands(vec![sleep(3), sleep(4)]);
    assert_eq!(queue.get(0).id, 4);
    assert_eq!(queue.get(1).id, 3);
    assert_eq!(queue.get(2).id, 1);
    assert!(queue.get(0).fail_on.is_empty());
}
