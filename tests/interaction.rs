use raider_errands::board::{Designation, ErrandBoard};
use raider_errands::errand::{Errand, MineWallErrand, MoveToPosition, SleepErrand};
use raider_errands::executors::PathTracker;
use raider_errands::gizmos::{
    maintain_gizmo, menu_child_visible, BaseGizmo, BuildingListGizmo, ButtonGizmo, Gizmo, GizmoAction,
    HasBaseGizmo, MenuGizmoState, MineWallGizmo,
};
use raider_errands::interaction::{
    interact_with_things, select_things, ControlAction, InteractedWith, MouseTargetedEntity,
    MouseTargetedEntityTarget,
};
use raider_errands::health::{DeathAction, OnDeathAction, Spawn, SpawnOre};
use raider_errands::orders::{
    move_selected_raider_to_target, start_mining_wall, Miner, PlayerInteractable, PlayerMovable,
    Selectable, Selected, Standable,
};
use raider_errands::selection::{apply_select, WantToSelect};
use raider_errands::world::{EntityId, WorldPosition};

fn target(entity: u64) -> MouseTargetedEntity {
    MouseTargetedEntity {
        target: Some(MouseTargetedEntityTarget {
            entity: EntityId::new(entity),
            intersection: WorldPosition::new(1, 2, 3),
        }),
    }
}

fn ring() -> Selectable {
    Selectable { selection_ring_offset: WorldPosition::new(0, 1, 0) }
}

#[test]
fn click_selects_exclusively_or_additionally() {
    let e = EntityId::new(5);
    assert_eq!(select_things(&vec![ControlAction::Select], &target(5), Some(ring())), Some(WantToSelect::Exclusively(e)));
    assert_eq!(
        select_things(&vec![ControlAction::SelectAdditional], &target(5), Some(ring())),
        Some(WantToSelect::Additionally(e))
    );
    assert_eq!(select_things(&vec![ControlAction::Select], &target(5), None), None);
    assert_eq!(select_things(&vec![ControlAction::Select], &MouseTargetedEntity { target: None }, Some(ring())), None);
    assert_eq!(select_things(&vec![ControlAction::Interact], &target(5), Some(ring())), None);
}

#[test]
fn click_orders_interaction() {
    let hit = interact_with_things(&vec![ControlAction::InteractAdditional], &target(7), Some(PlayerInteractable)).unwrap();
    assert_eq!(hit, InteractedWith::new(EntityId::new(7), WorldPosition::new(1, 2, 3), true));
    let hit = interact_with_things(&vec![ControlAction::Interact], &target(7), Some(PlayerInteractable)).unwrap();
    assert!(!hit.append);
    assert_eq!(interact_with_things(&vec![ControlAction::Interact], &target(7), None), None);
    assert_eq!(interact_with_things(&vec![ControlAction::Move], &target(7), Some(PlayerInteractable)), None);
}

#[test]
fn selection_requests_update_the_set() {
    let mut selected = vec![];
    apply_select(&mut selected, WantToSelect::Additionally(EntityId::new(1)));
    apply_select(&mut selected, WantToSelect::Additionally(EntityId::new(2)));
    apply_select(&mut selected, WantToSelect::Additionally(EntityId::new(1)));
    assert_eq!(selected, vec![EntityId::new(1), EntityId::new(2)]);
    apply_select(&mut selected, WantToSelect::Exclusively(EntityId::new(2)));
    assert_eq!(selected, vec![EntityId::new(2)]);
    apply_select(&mut selected, WantToSelect::Clear);
    assert!(selected.is_empty());
}

#[test]
fn interaction_replaces_or_appends_orders() {
    let mut board = ErrandBoard::new();
    let w = board.add_worker(EntityId::new(1), WorldPosition::new(0, 0, 0));
    let sleep = Errand::Sleep(SleepErrand { duration: 3 });
    board.append_errand(w, sleep);
    let go = Errand::MoveToPosition(MoveToPosition::new(WorldPosition::new(4, 0, 4), None));
    InteractedWith::new(EntityId::new(9), WorldPosition::new(4, 0, 4), true).add_interaction_to_queue(&mut board, w, go);
    assert_eq!(board.worker(w).queue.len(), 2);
    assert_eq!(board.worker(w).queue.get(1).errand, go);
    InteractedWith::new(EntityId::new(9), WorldPosition::new(4, 0, 4), false).add_interaction_to_queue(&mut board, w, go);
    assert_eq!(board.worker(w).queue.len(), 1);
    assert_eq!(board.worker(w).queue.get(0).errand, go);
}

#[test]
fn gizmo_buttons_follow_visibility() {
    assert_eq!(maintain_gizmo(true, false), GizmoAction::Spawn);
    assert_eq!(maintain_gizmo(false, true), GizmoAction::Despawn);
    assert_eq!(maintain_gizmo(true, true), GizmoAction::Keep);
    assert_eq!(maintain_gizmo(false, false), GizmoAction::Keep);
}

#[test]
fn menu_state_toggles() {
    let mut state = MenuGizmoState::Closed;
    state.toggle();
    assert_eq!(state, MenuGizmoState::Open);
    assert!(menu_child_visible(&vec![MenuGizmoState::Closed, state]));
    state.toggle();
    assert_eq!(state, MenuGizmoState::Closed);
    assert!(!menu_child_visible(&vec![state]));
}

#[test]
fn mine_gizmo_shows_for_undesignated_walls() {
    let gizmo = MineWallGizmo::initialize(&17u32);
    assert_eq!(gizmo.get_base_gizmo().get_name(), "Mine");
    assert_eq!(*gizmo.get_base_gizmo().get_icon(), 17);
    assert_eq!(gizmo.get_base_gizmo().get_order(), 0);
    let designation = Designation {
        id: 1,
        entity: EntityId::new(3),
        position: WorldPosition::new(0, 0, 0),
        errand: Errand::MineWall(MineWallErrand::new(EntityId::new(3))),
    };
    assert!(!MineWallGizmo::<u32>::is_visible(&vec![Some(designation)]));
    assert!(MineWallGizmo::<u32>::is_visible(&vec![Some(designation), None]));
    assert!(!MineWallGizmo::<u32>::is_visible(&vec![]));
}

#[test]
fn build_gizmo_shows_with_nothing_selected() {
    let gizmo = BuildingListGizmo::initialize(&"icon");
    assert_eq!(gizmo.0.name, "Build");
    assert!(BuildingListGizmo::<&str>::is_visible(0));
    assert!(!BuildingListGizmo::<&str>::is_visible(2));
    let button = ButtonGizmo::new(1u8, "Depot", 3);
    assert_eq!(button.get_order(), 3);
}

#[test]
fn path_tracker_walks_waypoints() {
    let a = WorldPosition::new(1, 0, 1);
    let b = WorldPosition::new(2, 0, 2);
    let mut path = PathTracker::new(vec![a, b]);
    assert_eq!(path.next(), Some(a));
    path.advance();
    assert_eq!(path.next(), Some(b));
    path.advance();
    assert_eq!(path.next(), None);
}

#[test]
fn orders_reach_selected_workers_only() {
    let mut board = ErrandBoard::new();
    let a = board.add_worker(EntityId::new(1), WorldPosition::new(0, 0, 0));
    let b = board.add_worker(EntityId::new(2), WorldPosition::new(0, 0, 0));
    let event = InteractedWith::new(EntityId::new(9), WorldPosition::new(4, 0, 4), false);
    move_selected_raider_to_target(&mut board, &event, None, &vec![(a, Selected, PlayerMovable)]);
    assert_eq!(board.worker(a).queue.len(), 0);
    move_selected_raider_to_target(&mut board, &event, Some(Standable), &vec![(a, Selected, PlayerMovable)]);
    assert_eq!(
        board.worker(a).queue.get(0).errand,
        Errand::MoveToPosition(MoveToPosition::new(WorldPosition::new(4, 0, 4), None))
    );
    assert_eq!(board.worker(b).queue.len(), 0);
    start_mining_wall(&mut board, &event, true, &vec![(b, Selected, Miner)]);
    assert_eq!(board.worker(b).queue.get(0).errand, Errand::MineWall(MineWallErrand::new(EntityId::new(9))));
    start_mining_wall(&mut board, &event, false, &vec![(a, Selected, Miner)]);
    assert_eq!(board.worker(a).queue.len(), 1);
    assert_eq!(Miner.errand_kind(), raider_errands::errand::ErrandKind::MineWall);
}

#[test]
fn ore_is_left_where_a_wall_dies() {
    let hook = OnDeathAction::new(SpawnOre { model: "ore" });
    let spawned = hook.action.on_death(EntityId::new(3), WorldPosition::new(7, 0, 8));
    assert_eq!(spawned, Some(Spawn { model: "ore", position: WorldPosition::new(7, 0, 8) }));
}

#[test]
fn appended_order_follows_the_queue() {
    let mut board = ErrandBoard::new();
    let a = board.add_worker(EntityId::new(1), WorldPosition::new(0, 0, 0));
    let sleep = Errand::Sleep(SleepErrand { duration: 3 });
    board.append_errand(a, sleep);
    let event = InteractedWith::new(EntityId::new(9), WorldPosition::new(4, 0, 4), true);
    move_selected_raider_to_target(&mut board, &event, Some(Standable), &vec![(a, Selected, PlayerMovable)]);
    assert_eq!(board.worker(a).queue.len(), 2);
    assert_eq!(board.worker(a).queue.get(0).errand, sleep);
    assert_eq!(board.worker(a).queue.get(1).id, 2);
}
