use ant_clustering::environment::{Cell, Grid};

#[test]
fn new_grid_dimensions_and_empty() {
    let mut grid = Grid::new(4, 5);
    assert_eq!(grid.height(), 4);
    assert_eq!(grid.width(), 5);
    for r in 0..4 {
        for c in 0..5 {
            assert!(grid.is_empty_cell((r, c)));
            assert_eq!(grid.get((r, c)), Cell::Empty);
        }
    }
}

#[test]
fn toroidal_wrap_get() {
    let mut grid = Grid::new(6, 4);
    grid.set_cell((2, 3), Cell::DeadAnt);
    // One full grid height down, or one full width across, reads the same
    // cell.
    assert_eq!(grid.get((2 + 6, 3)), grid.get((2, 3)));
    assert_eq!(grid.get((2, 3 + 4)), grid.get((2, 3)));
    assert_eq!(grid.get((2 + 6, 3)), Cell::DeadAnt);
    assert_eq!(grid.get((2 + 12, 3 + 8)), Cell::DeadAnt);
}

#[test]
fn set_cell_and_queries() {
    let mut grid = Grid::new(3, 3);
    grid.set_cell((1, 1), Cell::DeadAnt);
    assert!(grid.is_dead_cell((1, 1)));
    assert!(!grid.is_empty_cell((1, 1)));
    assert!(!grid.is_ant_cell((1, 1)));
    grid.set_cell((1, 1), Cell::Ant);
    assert!(grid.is_ant_cell((1, 1)));
    grid.set_cell((1, 1), Cell::Empty);
    assert!(grid.is_empty_cell((1, 1)));
}

#[test]
fn set_cell_wraps_coordinates() {
    let mut grid = Grid::new(3, 4);
    grid.set_cell((3 + 1, 4 + 2), Cell::DeadAnt);
    assert!(grid.is_dead_cell((1, 2)));
    assert_eq!(grid.get((1, 2)), Cell::DeadAnt);
}

#[test]
fn dead_ants_around_counts_neighbors_exactly() {
    let mut grid = Grid::new(5, 5);
    grid.set_cell((1, 1), Cell::DeadAnt);
    grid.set_cell((2, 2), Cell::DeadAnt);
    grid.set_cell((1, 3), Cell::DeadAnt);
    // Around (2, 2) with radius 1: (1, 1) and (1, 3) are neighbors; the
    // center (2, 2) itself is excluded.
    assert_eq!(grid.dead_ants_around((2, 2), 1), 2);
    // Around (1, 2) with radius 1: all three items are neighbors.
    assert_eq!(grid.dead_ants_around((1, 2), 1), 3);
    // Around (4, 4) with radius 1 nothing is near (wrapping reaches row 0
    // and column 0, which hold nothing).
    assert_eq!(grid.dead_ants_around((4, 4), 1), 0);
    // With radius 2 the whole cluster is visible from (2, 2).
    assert_eq!(grid.dead_ants_around((2, 2), 2), 2);
    assert_eq!(grid.dead_ants_around((3, 3), 2), 3);
}

#[test]
fn dead_ants_around_wraps_at_the_edges() {
    let mut grid = Grid::new(3, 3);
    grid.set_cell((0, 0), Cell::DeadAnt);
    // (0, 0) is a diagonal neighbor of (2, 2) on the torus.
    assert_eq!(grid.dead_ants_around((2, 2), 1), 1);
    // From the item's own cell the count excludes the center.
    assert_eq!(grid.dead_ants_around((0, 0), 1), 0);
}

#[test]
fn field_increases_by_one_per_new_neighborhood_item() {
    let mut grid = Grid::new(7, 7);
    let mut prev = grid.dead_ants_around((3, 3), 2);
    assert_eq!(prev, 0);
    for &p in &[(2, 2), (4, 4), (3, 5), (1, 1)] {
        grid.set_cell(p, Cell::DeadAnt);
        let now = grid.dead_ants_around((3, 3), 2);
        assert_eq!(now, prev + 1);
        prev = now;
    }
}

#[test]
fn count_cells_by_kind() {
    let mut grid = Grid::new(3, 3);
    grid.set_cell((0, 0), Cell::DeadAnt);
    grid.set_cell((1, 1), Cell::DeadAnt);
    grid.set_cell((2, 2), Cell::Ant);
    assert_eq!(grid.count_cells(Cell::DeadAnt), 2);
    assert_eq!(grid.count_cells(Cell::Ant), 1);
    assert_eq!(grid.count_cells(Cell::Empty), 6);
}

#[test]
fn random_empty_cell_returns_an_empty_cell() {
    let mut grid = Grid::new(4, 4);
    let pos = grid.random_empty_cell().expect("an empty grid has empty cells");
    assert!(pos.0 < 4 && pos.1 < 4);
    assert!(grid.is_empty_cell(pos));
}

#[test]
fn random_empty_cell_none_when_full() {
    let mut grid = Grid::new(2, 2);
    for r in 0..2 {
        for c in 0..2 {
            grid.set_cell((r, c), Cell::DeadAnt);
        }
    }
    assert!(grid.random_empty_cell().is_none());
}

#[test]
fn random_empty_cell_finds_the_single_gap() {
    let mut grid = Grid::new(2, 2);
    grid.set_cell((0, 0), Cell::DeadAnt);
    grid.set_cell((0, 1), Cell::DeadAnt);
    grid.set_cell((1, 0), Cell::DeadAnt);
    // Only (1, 1) is empty, so the uniform choice must return it.
    assert_eq!(grid.random_empty_cell(), Some((1, 1)));
}

#[test]
fn text_rendering() {
    let mut grid = Grid::new(2, 3);
    grid.set_cell((0, 0), Cell::DeadAnt);
    grid.set_cell((1, 2), Cell::Ant);
    assert_eq!(grid.to_text(), "D  \n  A\n");
    assert_eq!(Cell::DeadAnt.symbol(), "D");
    assert_eq!(Cell::Ant.symbol(), "A");
    assert_eq!(Cell::Empty.symbol(), " ");
}

#[test]
fn populate_capacity_exhausted_fails_fast() {
    // Nine items on a 3x3 grid must be rejected up front rather than loop
    // forever hunting for room.
    let mut grid = Grid::new(3, 3);
    assert!(grid.randomly_populate(9, Cell::DeadAnt).is_none());
    // The failed call left the grid untouched.
    assert_eq!(grid.count_cells(Cell::Empty), 9);
}

#[test]
fn populate_fills_distinct_empty_cells() {
    let mut grid = Grid::new(3, 3);
    let ps = grid.randomly_populate(8, Cell::DeadAnt).expect("8 < 9 empty cells");
    assert_eq!(ps.len(), 8);
    for (i, p) in ps.iter().enumerate() {
        assert!(p.0 < 3 && p.1 < 3);
        assert!(grid.is_dead_cell(*p));
        for q in ps.iter().skip(i + 1) {
            assert_ne!(p, q);
        }
    }
    assert_eq!(grid.count_cells(Cell::DeadAnt), 8);
    assert_eq!(grid.count_cells(Cell::Empty), 1);
}
