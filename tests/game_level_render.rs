use raider_errands::game_level::GameLevel;
use raider_errands::game_level_render::{
    get_wall_mesh, update_game_level_when_wall_is_removed, WallMesh, WorldTilePosition,
};
use raider_errands::grid::GridPosition;

#[test]
fn solid_rock_is_a_full_wall() {
    let level = GameLevel::new(3, 3);
    assert_eq!(get_wall_mesh(&level, &GridPosition::new(1, 1)), Some((WallMesh::Full, 0)));
}

#[test]
fn walls_around_a_hole_take_their_shapes() {
    let mut level = GameLevel::new(3, 3);
    level.remove_wall(1, 1);
    assert_eq!(get_wall_mesh(&level, &GridPosition::new(1, 1)), None);
    assert_eq!(get_wall_mesh(&level, &GridPosition::new(0, 1)), Some((WallMesh::ThreeWay, 270)));
    assert_eq!(get_wall_mesh(&level, &GridPosition::new(2, 1)), Some((WallMesh::ThreeWay, 90)));
    assert_eq!(get_wall_mesh(&level, &GridPosition::new(1, 0)), Some((WallMesh::ThreeWay, 180)));
    assert_eq!(get_wall_mesh(&level, &GridPosition::new(1, 2)), Some((WallMesh::ThreeWay, 0)));
    assert_eq!(get_wall_mesh(&level, &GridPosition::new(0, 0)), Some((WallMesh::InnerCorner, 180)));
    assert_eq!(get_wall_mesh(&level, &GridPosition::new(2, 2)), Some((WallMesh::InnerCorner, 0)));
}

#[test]
fn corner_and_diagonal_pieces() {
    let mut level = GameLevel::new(3, 3);
    level.remove_wall(1, 0);
    level.remove_wall(0, 1);
    assert_eq!(get_wall_mesh(&level, &GridPosition::new(0, 0)), Some((WallMesh::OuterCorner, 180)));
    assert_eq!(get_wall_mesh(&level, &GridPosition::new(1, 1)), Some((WallMesh::OuterCorner, 0)));

    let mut level = GameLevel::new(3, 3);
    level.remove_wall(0, 0);
    level.remove_wall(2, 2);
    assert_eq!(get_wall_mesh(&level, &GridPosition::new(1, 1)), Some((WallMesh::InnerDiagonal, 0)));

    let mut level = GameLevel::new(3, 3);
    level.remove_wall(0, 2);
    level.remove_wall(2, 0);
    assert_eq!(get_wall_mesh(&level, &GridPosition::new(1, 1)), Some((WallMesh::InnerDiagonal, 90)));
}

#[test]
fn tile_neighbors_come_orthogonal_first() {
    let p = WorldTilePosition { x: 3, z: -2 };
    let n = p.neighbors();
    assert_eq!(n[0], WorldTilePosition { x: 4, z: -2 });
    assert_eq!(n[3], WorldTilePosition { x: 3, z: -3 });
    assert_eq!(n[7], WorldTilePosition { x: 2, z: -3 });
    assert_eq!(p.as_grid_position(), GridPosition::new(3, -2));
}

#[test]
fn removed_wall_opens_its_tile() {
    let mut level = GameLevel::new(3, 3);
    update_game_level_when_wall_is_removed(&mut level, WorldTilePosition { x: 2, z: 1 });
    assert!(level.is_open(2, 1));
    update_game_level_when_wall_is_removed(&mut level, WorldTilePosition { x: -1, z: 1 });
    assert!(!level.is_open(0, 1));
}
