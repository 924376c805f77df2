use hexadventure::util::grid::Grid;
use hexadventure::util::grid::Pos;

fn pos(x: i32, y: i32) -> Pos {
    Pos { x, y }
}

#[test]
fn new_grid_holds_the_value_everywhere() {
    let grid: Grid<u8> = Grid::new(4, 3, 7);
    assert_eq!(grid.width(), 4);
    assert_eq!(grid.height(), 3);
    for y in 0..3 {
        for x in 0..4 {
            assert_eq!(grid.get(pos(x, y)), 7);
        }
    }
}

#[test]
fn empty_grid_has_no_positions() {
    let grid: Grid<bool> = Grid::new(0, 5, false);
    assert!(grid.positions().is_empty());
    assert!(grid.inner_positions().is_empty());
    assert!(!grid.contains(pos(0, 0)));
}

#[test]
fn set_changes_one_cell() {
    let mut grid: Grid<u32> = Grid::new(3, 3, 0);
    grid.set(pos(2, 1), 9);
    for p in grid.positions() {
        let expected = if p == pos(2, 1) { 9 } else { 0 };
        assert_eq!(grid.get(p), expected);
    }
    grid.set(pos(2, 1), 4);
    grid.set(pos(0, 2), 5);
    assert_eq!(grid.get(pos(2, 1)), 4);
    assert_eq!(grid.get(pos(0, 2)), 5);
    assert_eq!(grid.get(pos(1, 2)), 0);
    assert_eq!(grid.get(pos(2, 0)), 0);
}

#[test]
fn contains_checks_both_coordinates() {
    let grid: Grid<bool> = Grid::new(4, 2, false);
    assert!(grid.contains(pos(0, 0)));
    assert!(grid.contains(pos(3, 1)));
    assert!(!grid.contains(pos(4, 1)));
    assert!(!grid.contains(pos(3, 2)));
    assert!(!grid.contains(pos(-1, 0)));
    assert!(!grid.contains(pos(0, -1)));
    assert!(!grid.contains(pos(i32::MAX, i32::MIN)));
}

#[test]
fn is_inner_leaves_out_the_frame() {
    let grid: Grid<bool> = Grid::new(4, 3, false);
    assert!(grid.is_inner(pos(1, 1)));
    assert!(grid.is_inner(pos(2, 1)));
    assert!(!grid.is_inner(pos(0, 1)));
    assert!(!grid.is_inner(pos(3, 1)));
    assert!(!grid.is_inner(pos(1, 0)));
    assert!(!grid.is_inner(pos(1, 2)));
    assert!(!grid.is_inner(pos(7, 7)));
}

#[test]
fn positions_are_row_major() {
    let grid: Grid<bool> = Grid::new(3, 2, false);
    assert_eq!(
        grid.positions(),
        vec![pos(0, 0), pos(1, 0), pos(2, 0), pos(0, 1), pos(1, 1), pos(2, 1)]
    );
}

#[test]
fn inner_positions_skip_the_frame() {
    let grid: Grid<bool> = Grid::new(4, 4, false);
    assert_eq!(grid.inner_positions(), vec![pos(1, 1), pos(2, 1), pos(1, 2), pos(2, 2)]);
    let single: Grid<bool> = Grid::new(3, 3, false);
    assert_eq!(single.inner_positions(), vec![pos(1, 1)]);
    let wide: Grid<bool> = Grid::new(5, 3, false);
    assert_eq!(wide.inner_positions(), vec![pos(1, 1), pos(2, 1), pos(3, 1)]);
    let thin: Grid<bool> = Grid::new(2, 5, false);
    assert!(thin.inner_positions().is_empty());
    let flat: Grid<bool> = Grid::new(6, 1, false);
    assert!(flat.inner_positions().is_empty());
}

#[test]
fn neighbors_come_in_ring_order() {
    let ring = pos(5, 5).neighbors();
    assert_eq!(
        ring,
        [pos(6, 5), pos(5, 6), pos(4, 6), pos(4, 5), pos(5, 4), pos(6, 4)]
    );
    for dir in 0..6 {
        assert_eq!(pos(5, 5).neighbor(dir), ring[dir]);
        // consecutive cells of the ring are neighbors of each other
        let next = ring[(dir + 1) % 6];
        assert!(ring[dir].neighbors().contains(&next));
        // and the opposite direction leads back
        assert_eq!(ring[dir].neighbor((dir + 3) % 6), pos(5, 5));
    }
}

#[test]
fn neighbor_in_stops_at_the_edge() {
    let grid: Grid<bool> = Grid::new(3, 3, false);
    assert_eq!(grid.neighbor_in(pos(0, 0), 0), Some(pos(1, 0)));
    assert_eq!(grid.neighbor_in(pos(0, 0), 1), Some(pos(0, 1)));
    assert_eq!(grid.neighbor_in(pos(0, 0), 2), None);
    assert_eq!(grid.neighbor_in(pos(0, 0), 3), None);
    assert_eq!(grid.neighbor_in(pos(0, 0), 4), None);
    assert_eq!(grid.neighbor_in(pos(0, 0), 5), None);
    assert_eq!(grid.neighbor_in(pos(2, 2), 3), Some(pos(1, 2)));
    assert_eq!(grid.neighbor_in(pos(2, 2), 0), None);
    // from outside, a neighbor may lie inside
    assert_eq!(grid.neighbor_in(pos(-1, 1), 0), Some(pos(0, 1)));
    assert_eq!(grid.neighbor_in(pos(3, 0), 2), Some(pos(2, 1)));
    // positions at the limits of the coordinates have no neighbor in any grid
    assert_eq!(grid.neighbor_in(pos(i32::MAX, i32::MAX), 0), None);
    assert_eq!(grid.neighbor_in(pos(i32::MIN, i32::MIN), 3), None);
}

#[test]
fn grids_compare_by_content() {
    let mut a: Grid<u8> = Grid::new(2, 2, 1);
    let b: Grid<u8> = Grid::new(2, 2, 1);
    assert_eq!(a, b);
    a.set(pos(1, 1), 2);
    assert_ne!(a, b);
    assert_eq!(a.clone(), a);
}
