use ant_clustering::ant::{Ant, State};
use ant_clustering::environment::{Cell, Grid};
use ant_clustering::sim::{place_agents, run_simulation};

#[test]
fn place_agents_seeds_distinct_ant_cells() {
    let mut grid = Grid::new(4, 4);
    let mut ants = place_agents(&mut grid, 3, 1).expect("3 < 16 empty cells");
    assert_eq!(ants.len(), 3);
    assert_eq!(grid.count_cells(Cell::Ant), 3);
    for i in 0..ants.len() {
        let p = ants[i].get_pos();
        assert!(p.0 < 4 && p.1 < 4);
        assert!(grid.is_ant_cell(p));
        assert_eq!(ants[i].get_state(), State::NotCarrying);
        assert_eq!(ants[i].get_pos_old_cell(), Cell::Empty);
        for j in i + 1..ants.len() {
            assert_ne!(p, ants[j].get_pos());
        }
    }
}

#[test]
fn place_agents_capacity_exhausted_fails_fast() {
    let mut grid = Grid::new(2, 2);
    assert!(place_agents(&mut grid, 4, 1).is_none());
    assert_eq!(grid.count_cells(Cell::Empty), 4);
}

#[test]
fn run_simulation_conserves_and_drains() {
    let mut grid = Grid::new(8, 8);
    grid.randomly_populate(6, Cell::DeadAnt).expect("room for 6 items");
    let ants = place_agents(&mut grid, 2, 1).expect("room for 2 ants");
    let (mut final_grid, remaining) = run_simulation(grid, ants, 500, 1_000_000);
    // The cooldown drained every ant: all six items rest on the grid and no
    // cell holds an ant.
    assert_eq!(remaining.len(), 0);
    assert_eq!(final_grid.count_cells(Cell::DeadAnt), 6);
    assert_eq!(final_grid.count_cells(Cell::Ant), 0);
}

#[test]
fn run_simulation_zero_iterations_still_drains() {
    let mut grid = Grid::new(5, 5);
    grid.randomly_populate(3, Cell::DeadAnt).expect("room for 3 items");
    let ants = place_agents(&mut grid, 1, 1).expect("room for 1 ant");
    let (mut final_grid, remaining) = run_simulation(grid, ants, 0, 1_000_000);
    assert_eq!(remaining.len(), 0);
    assert_eq!(final_grid.count_cells(Cell::DeadAnt), 3);
    assert_eq!(final_grid.count_cells(Cell::Ant), 0);
}

#[test]
fn scenario_corner_cluster_pickup_then_drain() {
    // A 10x10 grid seeded with 5 items clustered at one corner and one
    // agent starting empty-handed at the opposite corner: over the run the
    // agent must at some point enter the Carrying state, and after the
    // cooldown no agent remains and every item rests on the grid.
    let mut grid = Grid::new(10, 10);
    for &p in &[(0, 0), (0, 1), (1, 0), (1, 1), (0, 2)] {
        grid.set_cell(p, Cell::DeadAnt);
    }
    grid.set_cell((9, 9), Cell::Ant);
    let mut ant = Ant::new(((9, 9), Cell::Empty), 1);

    let mut was_carrying = false;
    for _ in 0..2_000_000 {
        ant.action(&mut grid, true);
        if ant.get_state() == State::Carrying {
            was_carrying = true;
            break;
        }
    }
    assert!(was_carrying, "the agent never picked an item up");

    let (mut final_grid, remaining) = run_simulation(grid, vec![ant], 0, 5_000_000);
    assert_eq!(remaining.len(), 0);
    assert_eq!(final_grid.count_cells(Cell::DeadAnt), 5);
    assert_eq!(final_grid.count_cells(Cell::Ant), 0);
}
