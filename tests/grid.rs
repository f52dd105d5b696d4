use raider_errands::grid::{flood_fill_grid, Grid, GridPosition};

#[test]
fn get_and_set_cells() {
    let mut grid = Grid::new(3, 2, 0u8);
    grid.set(2, 1, 7);
    assert_eq!(grid.get(2, 1), Some(&7));
    assert_eq!(grid.items[5], 7);
    assert_eq!(grid.get(3, 0), None);
    assert_eq!(grid.get(0, -1), None);
    if let Some(cell) = grid.get_mut(1, 1) {
        *cell = 4;
    }
    assert_eq!(grid.get(1, 1), Some(&4));
    assert!(grid.get_mut(0, 2).is_none());
}

#[test]
fn map_keeps_shape() {
    let grid = Grid::new_from_list(2, 2, vec![1, 2, 3, 4]);
    let doubled = grid.map(|v: &i32| v * 2);
    assert_eq!(doubled.width(), 2);
    assert_eq!(doubled.height(), 2);
    assert_eq!(doubled.items, vec![2, 4, 6, 8]);
}

#[test]
fn flood_fill_stays_in_region() {
    let grid = Grid::new_from_list(
        3,
        3,
        vec![true, true, false, false, true, false, false, true, true],
    );
    let mut cells = flood_fill_grid(&grid, 0, 0, |x, z| *grid.get(x, z).unwrap_or(&false));
    assert_eq!(cells[0], GridPosition::new(0, 0));
    cells.remove(0);
    cells.sort_by_key(|p| (p.x, p.z));
    assert_eq!(
        cells,
        vec![
            GridPosition::new(0, 0),
            GridPosition::new(1, 0),
            GridPosition::new(1, 1),
            GridPosition::new(1, 2),
            GridPosition::new(2, 2),
        ]
    );
}

#[test]
fn flood_fill_past_the_edge_is_empty() {
    let grid = Grid::new(2, 2, true);
    assert!(flood_fill_grid(&grid, 3, 0, |_, _| true).is_empty());
    assert!(flood_fill_grid(&grid, 0, 3, |_, _| true).is_empty());
}

#[test]
fn flood_fill_from_blocked_start_gives_start_only() {
    let grid = Grid::new(2, 2, true);
    let cells = flood_fill_grid(&grid, 1, 1, |x, z| !(x == 1 && z == 1));
    assert_eq!(cells, vec![GridPosition::new(1, 1)]);
}

#[test]
fn flood_fill_lists_each_cell_once_in_walk_order() {
    let grid = Grid::new(3, 3, true);
    let cells = flood_fill_grid(&grid, 1, 1, |_, _| true);
    assert_eq!(cells[0], GridPosition::new(1, 1));
    assert_eq!(cells[1], GridPosition::new(1, 1));
    let later = &cells[1..];
    assert_eq!(later.len(), 9);
    for (i, c) in later.iter().enumerate() {
        assert!(!later[..i].contains(c));
        if i > 0 {
            assert!(later[..i].iter().any(|p| (p.x - c.x).abs() + (p.z - c.z).abs() == 1));
        }
    }
}

#[test]
fn flood_fill_does_not_jump_to_a_separate_region() {
    let grid = Grid::new_from_list(3, 1, vec![true, false, true]);
    let cells = flood_fill_grid(&grid, 0, 0, |x, z| *grid.get(x, z).unwrap_or(&false));
    assert_eq!(cells, vec![GridPosition::new(0, 0), GridPosition::new(0, 0)]);
}
