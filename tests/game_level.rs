use raider_errands::game_level::GameLevel;
use raider_errands::grid::{Grid, GridPosition};
use raider_errands::world::WorldPosition;

#[test]
fn generates_wall_with_hole_in_middle() {
    let mut level = GameLevel::new_from_open_tiles(Grid::new(3, 3, false));
    level.remove_wall(1, 1);

    let expected = GameLevel::new_from_open_tiles(Grid::new_from_list(
        3,
        3,
        vec![
            false, false, false,
            false, true, false,
            false, false, false
        ],
    ));

    assert_eq!(level, expected);
}

#[test]
fn generates_wall_with_hole_in_zero_zero() {
    let mut level = GameLevel::new_from_open_tiles(Grid::new(3, 3, false));
    level.remove_wall(0, 0);

    let expected = GameLevel::new_from_open_tiles(Grid::new_from_list(
        3,
        3,
        vec![
            true, false, false,
            false, false, false,
            false, false, false
        ],
    ));

    assert_eq!(level, expected);
}

#[test]
fn generates_wall_with_hole_in_zero_max() {
    let mut level = GameLevel::new_from_open_tiles(Grid::new(3, 3, false));
    level.remove_wall(0, 2);

    let expected = GameLevel::new_from_open_tiles(Grid::new_from_list(
        3,
        3,
        vec![
            false, false, false,
            false, false, false,
            true, false, false
        ],
    ));

    assert_eq!(level, expected);
}

#[test]
fn generates_wall_with_hole_in_max_max() {
    let mut level = GameLevel::new_from_open_tiles(Grid::new(3, 3, false));
    level.remove_wall(2, 2);

    let expected = GameLevel::new_from_open_tiles(Grid::new_from_list(
        3,
        3,
        vec![
            false, false, false,
            false, false, false,
            false, false, true
        ],
    ));

    assert_eq!(level, expected);
}

#[test]
fn generates_wall_with_hole_in_max_zero() {
    let mut level = GameLevel::new_from_open_tiles(Grid::new(3, 3, false));
    level.remove_wall(2, 0);

    let expected = GameLevel::new_from_open_tiles(Grid::new_from_list(
        3,
        3,
        vec![
            false, false, true,
            false, false, false,
            false, false, false
        ],
    ));

    assert_eq!(level, expected);
}

#[test]
fn expands_open_tiles() {
    let mut level = GameLevel {
        open_tiles: Grid {
            items: vec![false, false, false, true, false, false, false, false, false],
            height: 3,
            width: 3,
        },
        walled_tiles: Grid {
            items: vec![true, true, false, false, true, false, true, true, false],
            height: 3,
            width: 3,
        },
    };
    level.remove_wall(1, 1);

    let expected = GameLevel {
        open_tiles: Grid {
            items: vec![false, false, true, true, true, true, false, false, true],
            height: 3,
            width: 3,
        },
        walled_tiles: Grid {
            items: vec![true, true, false, false, false, false, true, true, false],
            height: 3,
            width: 3,
        },
    };

    assert_eq!(level, expected);
}

#[test]
fn test_tile_positions() {
    let level = GameLevel::new(10, 10);

    assert_eq!(level.get_position_at(GridPosition::new(0, 0)), WorldPosition::new(5, 0, 5));
    assert_eq!(level.get_position_at(GridPosition::new(1, 1)), WorldPosition::new(15, 0, 15));

    assert_eq!(level.get_tile_at(WorldPosition::new(5, 0, 5)), GridPosition::new(0, 0));
    assert_eq!(level.get_tile_at(WorldPosition::new(1, 0, 1)), GridPosition::new(0, 0));
    assert_eq!(level.get_tile_at(WorldPosition::new(9, 0, 9)), GridPosition::new(0, 0));
    assert_eq!(level.get_tile_at(WorldPosition::new(9, 0, 1)), GridPosition::new(0, 0));
    assert_eq!(level.get_tile_at(WorldPosition::new(1, 0, 9)), GridPosition::new(0, 0));
    assert_eq!(level.get_tile_at(WorldPosition::new(11, 0, 11)), GridPosition::new(1, 1));
    assert_eq!(level.get_tile_at(WorldPosition::new(19, 0, 19)), GridPosition::new(1, 1));
}

#[test]
fn tile_of_negative_position_rounds_down() {
    let level = GameLevel::new(10, 10);
    assert_eq!(level.get_tile_at(WorldPosition::new(-1, 0, -10)), GridPosition::new(-1, -1));
    assert_eq!(level.get_tile_at(WorldPosition::new(-11, 0, 0)), GridPosition::new(-2, 0));
}

#[test]
fn new_level_is_all_walls() {
    let level = GameLevel::new(2, 4);
    assert_eq!(level.width(), 4);
    assert_eq!(level.height(), 2);
    assert!(!level.is_open(0, 0));
    assert!(!level.is_open(3, 1));
    assert!(!level.is_open(-1, 0));
    assert!(level.within(3, 1));
    assert!(!level.within(4, 1));
    assert!(!level.within(0, -1));
}

#[test]
fn removing_wall_next_to_open_area_joins_it() {
    // a corridor of wall-free tiles along column 2, closed off by walls
    let mut level = GameLevel {
        open_tiles: Grid::new_from_list(3, 3, vec![false; 9]),
        walled_tiles: Grid::new_from_list(
            3,
            3,
            vec![true, true, false, true, true, false, true, true, false],
        ),
    };
    level.remove_wall(1, 0);
    assert!(level.is_open(1, 0));
    assert!(level.is_open(2, 0));
    assert!(level.is_open(2, 1));
    assert!(level.is_open(2, 2));
    assert!(!level.is_open(0, 0));
    assert!(!level.is_open(1, 1));
}

#[test]
fn iter_tiles_walks_columns() {
    let level = GameLevel::new(2, 3);
    let tiles = level.iter_tiles();
    assert_eq!(
        tiles,
        vec![
            GridPosition::new(0, 0),
            GridPosition::new(0, 1),
            GridPosition::new(1, 0),
            GridPosition::new(1, 1),
            GridPosition::new(2, 0),
            GridPosition::new(2, 1),
        ]
    );
}

#[test]
fn removing_a_wall_leaves_a_separate_wall_free_region_closed() {
    // column 0 wall-free but sealed off by the wall column 1
    let mut level = GameLevel {
        open_tiles: Grid::new_from_list(3, 1, vec![false; 3]),
        walled_tiles: Grid::new_from_list(3, 1, vec![false, true, true]),
    };
    level.remove_wall(2, 0);
    assert!(level.is_open(2, 0));
    assert!(!level.is_open(0, 0));
}
