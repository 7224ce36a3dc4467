use ant_clustering::ant::{drop_odds, pick_odds, Ant, State};
use ant_clustering::environment::{Cell, Grid};

#[test]
fn ant_new_and_getters() {
    let mut ant = Ant::new(((2, 3), Cell::Empty), 1);
    assert_eq!(ant.get_pos(), (2, 3));
    assert_eq!(ant.get_pos_old_cell(), Cell::Empty);
    assert_eq!(ant.get_state(), State::NotCarrying);
}

#[test]
fn change_state_overwrites() {
    let mut ant = Ant::new(((0, 0), Cell::Empty), 1);
    ant.change_state(State::Carrying);
    assert_eq!(ant.get_state(), State::Carrying);
    ant.change_state(State::NotCarrying);
    assert_eq!(ant.get_state(), State::NotCarrying);
}

#[test]
fn mov_restores_and_remembers_cells() {
    let mut grid = Grid::new(3, 3);
    grid.set_cell((0, 0), Cell::Ant);
    grid.set_cell((1, 1), Cell::DeadAnt);
    let mut ant = Ant::new(((0, 0), Cell::Empty), 1);

    // Moving onto the item-bearing cell stashes the item beneath the ant.
    ant.mov(&mut grid, (1, 1));
    assert_eq!(ant.get_pos(), (1, 1));
    assert_eq!(ant.get_pos_old_cell(), Cell::DeadAnt);
    assert!(grid.is_empty_cell((0, 0)));
    assert!(grid.is_ant_cell((1, 1)));

    // Moving away restores the item to the grid.
    ant.mov(&mut grid, (2, 2));
    assert!(grid.is_dead_cell((1, 1)));
    assert!(grid.is_ant_cell((2, 2)));
    assert_eq!(ant.get_pos_old_cell(), Cell::Empty);
}

#[test]
fn odds_formulas_exact() {
    // With radius 1 the neighborhood has 8 cells; the weights are fourth
    // powers over the common denominator 8^4 = 4096.
    assert_eq!(pick_odds(0, 8), (4096, 4096));
    assert_eq!(pick_odds(8, 8), (0, 4096));
    assert_eq!(pick_odds(2, 8), (4096 - 16, 4096));
    assert_eq!(drop_odds(0, 8), (0, 4096));
    assert_eq!(drop_odds(2, 8), (16, 4096));
    assert_eq!(drop_odds(8, 8), (4096, 4096));
    // Probability bounds: the weight never exceeds the denominator.
    for d in 0..=8u8 {
        let (num, den) = pick_odds(d, 8);
        assert!(num <= den && den > 0);
        let (num, den) = drop_odds(d, 8);
        assert!(num <= den && den > 0);
    }
}

#[test]
fn pickup_certain_with_lonely_item() {
    // A lone item has no item neighbors, so the pickup probability is
    // exactly 1 and the pickup must happen on the first try.
    let mut grid = Grid::new(5, 5);
    grid.set_cell((1, 1), Cell::DeadAnt);
    grid.set_cell((4, 4), Cell::Ant);
    let mut ant = Ant::new(((4, 4), Cell::Empty), 1);
    ant.pickup_item(&mut grid, (1, 1));
    assert_eq!(ant.get_state(), State::Carrying);
    assert!(grid.is_empty_cell((1, 1)));
}

#[test]
fn pickup_impossible_in_full_neighborhood() {
    // An item whose whole neighborhood is items is picked with probability
    // 1 - (8/8)^4 = 0: it always stays.
    let mut grid = Grid::new(5, 5);
    for r in 0..3 {
        for c in 0..3 {
            grid.set_cell((r, c), Cell::DeadAnt);
        }
    }
    grid.set_cell((4, 4), Cell::Ant);
    let mut ant = Ant::new(((4, 4), Cell::Empty), 1);
    for _ in 0..100 {
        ant.pickup_item(&mut grid, (1, 1));
        assert_eq!(ant.get_state(), State::NotCarrying);
        assert!(grid.is_dead_cell((1, 1)));
    }
}

#[test]
fn drop_certain_in_full_neighborhood() {
    // An empty cell ringed by eight items receives a drop with probability
    // (8/8)^4 = 1.
    let mut grid = Grid::new(5, 5);
    for r in 0..3 {
        for c in 0..3 {
            if (r, c) != (1, 1) {
                grid.set_cell((r, c), Cell::DeadAnt);
            }
        }
    }
    grid.set_cell((4, 4), Cell::Ant);
    let mut ant = Ant::new(((4, 4), Cell::Empty), 1);
    ant.change_state(State::Carrying);
    ant.drop_item(&mut grid, (1, 1));
    assert_eq!(ant.get_state(), State::NotCarrying);
    assert!(grid.is_dead_cell((1, 1)));
}

#[test]
fn drop_impossible_far_from_items() {
    // With no item anywhere near, the drop probability is (0/8)^4 = 0.
    let mut grid = Grid::new(5, 5);
    grid.set_cell((4, 4), Cell::Ant);
    let mut ant = Ant::new(((4, 4), Cell::Empty), 1);
    ant.change_state(State::Carrying);
    for _ in 0..100 {
        ant.drop_item(&mut grid, (1, 1));
        assert_eq!(ant.get_state(), State::Carrying);
        assert!(grid.is_empty_cell((1, 1)));
    }
}

#[test]
fn action_on_single_cell_grid_is_a_no_op() {
    // On a 1x1 torus every proposed destination is the ant's own cell, so
    // the step can never change anything.
    let mut grid = Grid::new(1, 1);
    grid.set_cell((0, 0), Cell::Ant);
    let mut ant = Ant::new(((0, 0), Cell::Empty), 1);
    for _ in 0..50 {
        ant.action(&mut grid, true);
        assert_eq!(ant.get_pos(), (0, 0));
        assert!(grid.is_ant_cell((0, 0)));
        assert_eq!(ant.get_state(), State::NotCarrying);
    }
}

#[test]
fn action_conserves_items_step_by_step() {
    let mut grid = Grid::new(10, 10);
    let ps = grid.randomly_populate(5, Cell::DeadAnt).expect("room for 5 items");
    assert_eq!(ps.len(), 5);
    let pos = grid.random_empty_cell().expect("room for an ant");
    grid.set_cell(pos, Cell::Ant);
    let mut ant = Ant::new((pos, Cell::Empty), 1);
    for _ in 0..5000 {
        ant.action(&mut grid, true);
        let carried = if ant.get_state() == State::Carrying { 1 } else { 0 };
        let stashed = if ant.get_pos_old_cell() == Cell::DeadAnt { 1 } else { 0 };
        assert_eq!(grid.count_cells(Cell::DeadAnt) + carried + stashed, 5);
        assert_eq!(grid.count_cells(Cell::Ant), 1);
    }
}

#[test]
fn action_without_pickup_never_acquires() {
    let mut grid = Grid::new(6, 6);
    grid.randomly_populate(8, Cell::DeadAnt).expect("room for 8 items");
    let pos = grid.random_empty_cell().expect("room for an ant");
    grid.set_cell(pos, Cell::Ant);
    let mut ant = Ant::new((pos, Cell::Empty), 1);
    for _ in 0..2000 {
        ant.action(&mut grid, false);
        assert_eq!(ant.get_state(), State::NotCarrying);
    }
}
