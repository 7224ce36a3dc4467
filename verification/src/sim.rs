//! The simulation driver.
//!
//! The driver owns the grid and the ant collection and runs the two-phase
//! protocol: a fixed number of exploration sweeps with pickup enabled, then
//! cooldown sweeps with pickup disabled, during which every ant that has
//! nothing left to drop is removed and its cell restored, until no ant
//! remains (or a caller-chosen safety cap on sweeps is reached, since the
//! cooldown's termination is probabilistic).

use vstd::prelude::*;
use crate::ant::{Ant, State};
use crate::environment::{count_in_grid, Cell, Grid};

verus! {

/// The items attributable to a collection of ants: carried ones plus the
/// ones remembered beneath the ants.
pub open spec fn ants_hold(ants: Seq<Ant>) -> nat
    decreases ants.len(),
{
    if ants.len() == 0 {
        0
    } else {
        ants_hold(ants.drop_last()) + ants.last().holds()
    }
}

/// Every item of a run: resting on the grid or attributable to an ant.
pub open spec fn total_items(g: &Grid, ants: Seq<Ant>) -> int {
    count_in_grid(g.cells(), Cell::DeadAnt) + ants_hold(ants) as int
}

/// The colony invariant: the grid is well formed, every ant is consistent
/// with it, no two ants stand on the same cell, and the ant-marked cells are
/// exactly as many as the ants.
pub open spec fn colony_ok(g: &Grid, ants: Seq<Ant>) -> bool {
    &&& g.wf()
    &&& forall|i: int| 0 <= i < ants.len() ==> (#[trigger] ants[i]).ok_for(g)
    &&& forall|i: int, j: int| 0 <= i < j < ants.len() ==> ants[i].pos() != ants[j].pos()
    &&& count_in_grid(g.cells(), Cell::Ant) == ants.len()
}

/// Mutual exclusion: under the colony invariant two distinct ants never
/// occupy the same cell, and no cell claimed by an ant holds an item, so no
/// two distinct logical entities share a cell.
pub proof fn lemma_mutual_exclusion(g: &Grid, ants: Seq<Ant>, i: int, j: int)
    requires
        colony_ok(g, ants),
        0 <= i < ants.len(),
        0 <= j < ants.len(),
        i != j,
    ensures
        ants[i].pos() != ants[j].pos(),
        g.cell_at(ants[i].pos().0 as int, ants[i].pos().1 as int) is Ant,
        !(g.cell_at(ants[i].pos().0 as int, ants[i].pos().1 as int) is DeadAnt),
{
    if i < j {
        assert(ants[i].pos() != ants[j].pos());
    } else {
        assert(ants[j].pos() != ants[i].pos());
    }
}

/// Replacing one ant of a collection shifts the attributable items by the
/// difference between the outgoing and incoming ant.
proof fn lemma_ants_hold_update(ants: Seq<Ant>, i: int, a: Ant)
    requires
        0 <= i < ants.len(),
    ensures
        ants_hold(ants.update(i, a)) == ants_hold(ants) - ants[i].holds() + a.holds(),
    decreases ants.len(),
{
    let up = ants.update(i, a);
    if i == ants.len() - 1 {
        assert(up.drop_last() =~= ants.drop_last());
        assert(up.last() == a);
    } else {
        assert(up.drop_last() =~= ants.drop_last().update(i, a));
        assert(up.last() == ants.last());
        lemma_ants_hold_update(ants.drop_last(), i, a);
    }
}

/// The items attributable to a concatenation are the two parts' sums.
proof fn lemma_ants_hold_concat(u: Seq<Ant>, v: Seq<Ant>)
    ensures
        ants_hold(u + v) == ants_hold(u) + ants_hold(v),
    decreases v.len(),
{
    if v.len() == 0 {
        assert(u + v =~= u);
    } else {
        assert((u + v).drop_last() =~= u + v.drop_last());
        assert((u + v).last() == v.last());
        lemma_ants_hold_concat(u, v.drop_last());
    }
}

/// Seeds `count` ants at randomly chosen empty cells of an ant-free grid,
/// each remembering the empty cell beneath it and carrying nothing. Fails
/// fast, leaving the grid untouched, unless strictly fewer ants are requested
/// than there are empty cells.
pub fn place_agents(grid: &mut Grid, count: usize, view_radius: usize) -> (ants: Option<Vec<Ant>>)
    requires
        old(grid).wf(),
        1 <= view_radius <= 7,
        count_in_grid(old(grid).cells(), Cell::Ant) == 0,
    ensures
        final(grid).wf(),
        final(grid).rows() == old(grid).rows(),
        final(grid).cols() == old(grid).cols(),
        ants is None ==> *final(grid) == *old(grid) && count >= count_in_grid(
            old(grid).cells(),
            Cell::Empty,
        ),
        ants matches Some(v) ==> {
            &&& count < count_in_grid(old(grid).cells(), Cell::Empty)
            &&& v@.len() == count
            &&& colony_ok(final(grid), v@)
            &&& forall|i: int|
                0 <= i < count ==> (#[trigger] v@[i]).state() is NotCarrying
                    && v@[i].prior_cell() is Empty && v@[i].radius() == view_radius
            &&& count_in_grid(final(grid).cells(), Cell::DeadAnt) == count_in_grid(
                old(grid).cells(),
                Cell::DeadAnt,
            )
            &&& total_items(final(grid), v@) == count_in_grid(old(grid).cells(), Cell::DeadAnt)
        },
{
    let e = grid.count_cells(Cell::Empty);
    if count >= e {
        return None;
    }
    let mut ants: Vec<Ant> = Vec::new();
    let mut placed: usize = 0;
    while placed < count
        invariant
            grid.wf(),
            grid.rows() == old(grid).rows(),
            grid.cols() == old(grid).cols(),
            1 <= view_radius <= 7,
            e == count_in_grid(old(grid).cells(), Cell::Empty),
            count < e,
            placed <= count,
            ants@.len() == placed,
            count_in_grid(grid.cells(), Cell::Empty) == e - placed,
            count_in_grid(grid.cells(), Cell::DeadAnt) == count_in_grid(
                old(grid).cells(),
                Cell::DeadAnt,
            ),
            colony_ok(grid, ants@),
            forall|i: int|
                0 <= i < placed ==> (#[trigger] ants@[i]).state() is NotCarrying
                    && ants@[i].prior_cell() is Empty && ants@[i].radius() == view_radius,
            ants_hold(ants@) == 0,
        decreases count - placed,
    {
        let ghost pre = *grid;
        let ghost ants_pre = ants@;
        let pos_opt = grid.random_empty_cell();
        match pos_opt {
            None => {
                proof {
                    assert(false);
                }
                return None;
            },
            Some(pos) => {
                let a = Ant::new((pos, Cell::Empty), view_radius);
                grid.set_cell(pos, Cell::Ant);
                ants.push(a);
                placed = placed + 1;
                proof {
                    assert(ants@ =~= ants_pre.push(a));
                    assert(ants@.drop_last() =~= ants_pre);
                    assert forall|i: int| 0 <= i < placed implies (
                    #[trigger] ants@[i]).ok_for(grid) by {
                        if i < placed - 1 {
                            assert(ants_pre[i].ok_for(&pre));
                            assert(pre.cell_at(ants_pre[i].pos().0 as int,
                                ants_pre[i].pos().1 as int) is Ant);
                            assert(ants@[i] == ants_pre[i]);
                            assert(grid.cell_at(ants_pre[i].pos().0 as int,
                                ants_pre[i].pos().1 as int) == pre.cell_at(
                                ants_pre[i].pos().0 as int,
                                ants_pre[i].pos().1 as int,
                            ));
                        } else {
                            assert(ants@[i] == a);
                            assert(grid.cell_at(pos.0 as int, pos.1 as int) is Ant);
                        }
                    }
                    assert forall|i: int, j: int| 0 <= i < j < placed implies ants@[i].pos()
                        != ants@[j].pos() by {
                        if j == placed - 1 {
                            assert(pre.cell_at(ants_pre[i].pos().0 as int,
                                ants_pre[i].pos().1 as int) is Ant);
                            assert(pre.cell_at(pos.0 as int, pos.1 as int) is Empty);
                        }
                    }
                }
            },
        }
    }
    Some(ants)
}

/// After one ant's step, the whole colony is still consistent and the item
/// total is unchanged.
proof fn lemma_colony_step(g0: Grid, g1: Grid, ants: Seq<Ant>, i: int, a: Ant)
    requires
        colony_ok(&g0, ants),
        0 <= i < ants.len(),
        g1.wf(),
        g1.rows() == g0.rows(),
        g1.cols() == g0.cols(),
        a.ok_for(&g1),
        count_in_grid(g1.cells(), Cell::DeadAnt) + a.holds() == count_in_grid(
            g0.cells(),
            Cell::DeadAnt,
        ) + ants[i].holds(),
        count_in_grid(g1.cells(), Cell::Ant) == count_in_grid(g0.cells(), Cell::Ant),
        (a == ants[i] && g1 == g0) || ({
            &&& a.pos() != ants[i].pos()
            &&& !(g0.cell_at(a.pos().0 as int, a.pos().1 as int) is Ant)
            &&& g1.cell_at(ants[i].pos().0 as int, ants[i].pos().1 as int) == ants[i].prior_cell()
            &&& forall|r: int, c: int|
                0 <= r < g0.rows() && 0 <= c < g0.cols() && !(r == ants[i].pos().0 as int && c
                    == ants[i].pos().1 as int) && !(r == a.pos().0 as int && c
                    == a.pos().1 as int) ==> g1.cells()[r][c] == g0.cells()[r][c]
        }),
    ensures
        colony_ok(&g1, ants.update(i, a)),
        total_items(&g1, ants.update(i, a)) == total_items(&g0, ants),
{
    let up = ants.update(i, a);
    lemma_ants_hold_update(ants, i, a);
    if a == ants[i] && g1 == g0 {
        assert(up =~= ants);
    } else {
        assert forall|j: int| 0 <= j < up.len() implies (#[trigger] up[j]).ok_for(&g1) by {
            if j != i {
                assert(ants[j].ok_for(&g0));
                lemma_mutual_exclusion(&g0, ants, j, i);
                assert(!(g0.cell_at(a.pos().0 as int, a.pos().1 as int) is Ant));
                assert(ants[j].pos() != a.pos());
                assert(g1.cells()[ants[j].pos().0 as int][ants[j].pos().1 as int]
                    == g0.cells()[ants[j].pos().0 as int][ants[j].pos().1 as int]);
            }
        }
        assert forall|x: int, y: int| 0 <= x < y < up.len() implies up[x].pos() != up[y].pos() by {
            if x == i {
                assert(ants[y].ok_for(&g0));
                assert(!(g0.cell_at(a.pos().0 as int, a.pos().1 as int) is Ant));
            } else if y == i {
                assert(ants[x].ok_for(&g0));
                assert(!(g0.cell_at(a.pos().0 as int, a.pos().1 as int) is Ant));
            }
        }
    }
}

/// One pass over the whole colony: every ant takes one step, in collection
/// order, each seeing the grid as the ants before it left it.
fn sweep(grid: &mut Grid, ants: &mut Vec<Ant>, should_pick: bool)
    requires
        colony_ok(old(grid), old(ants)@),
    ensures
        colony_ok(final(grid), final(ants)@),
        final(grid).rows() == old(grid).rows(),
        final(grid).cols() == old(grid).cols(),
        final(ants)@.len() == old(ants)@.len(),
        total_items(final(grid), final(ants)@) == total_items(old(grid), old(ants)@),
        forall|i: int|
            0 <= i < final(ants)@.len() ==> (#[trigger] final(ants)@[i]).radius()
                == old(ants)@[i].radius(),
{
    let mut i: usize = 0;
    while i < ants.len()
        invariant
            colony_ok(grid, ants@),
            grid.rows() == old(grid).rows(),
            grid.cols() == old(grid).cols(),
            ants@.len() == old(ants)@.len(),
            i <= ants@.len(),
            total_items(grid, ants@) == total_items(old(grid), old(ants)@),
            forall|j: int|
                0 <= j < ants@.len() ==> (#[trigger] ants@[j]).radius() == old(ants)@[j].radius(),
        decreases ants@.len() - i,
    {
        let ghost g_pre = *grid;
        let ghost ants_pre = ants@;
        let mut a = ants[i];
        a.action(grid, should_pick);
        ants.set(i, a);
        proof {
            lemma_colony_step(g_pre, *grid, ants_pre, i as int, a);
        }
        i = i + 1;
    }
}

/// One cooldown pass: every ant takes one step with pickup disabled; then,
/// after the whole pass, each ant that ended it with nothing to drop is
/// removed and its cell restored to what lay beneath it.
fn cooldown_sweep(grid: &mut Grid, ants: &mut Vec<Ant>)
    requires
        colony_ok(old(grid), old(ants)@),
    ensures
        colony_ok(final(grid), final(ants)@),
        final(grid).rows() == old(grid).rows(),
        final(grid).cols() == old(grid).cols(),
        final(ants)@.len() <= old(ants)@.len(),
        total_items(final(grid), final(ants)@) == total_items(old(grid), old(ants)@),
        forall|i: int| 0 <= i < final(ants)@.len() ==> (#[trigger] final(ants)@[i]).state() is Carrying,
{
    sweep(grid, ants, false);
    let mut survivors: Vec<Ant> = Vec::new();
    let ghost a1 = ants@;
    proof {
        assert(survivors@ + ants@.skip(0) =~= ants@);
    }
    let mut i: usize = 0;
    while i < ants.len()
        invariant
            grid.rows() == old(grid).rows(),
            grid.cols() == old(grid).cols(),
            ants@ == a1,
            i <= ants@.len(),
            survivors@.len() <= i,
            colony_ok(grid, survivors@ + ants@.skip(i as int)),
            total_items(grid, survivors@ + ants@.skip(i as int)) == total_items(
                old(grid),
                old(ants)@,
            ),
            forall|k: int|
                0 <= k < survivors@.len() ==> (#[trigger] survivors@[k]).state() is Carrying,
        decreases ants@.len() - i,
    {
        let ghost g_pre = *grid;
        let ghost combined = survivors@ + ants@.skip(i as int);
        let ghost s_len = survivors@.len() as int;
        proof {
            assert(combined[s_len] == ants@[i as int]);
        }
        let mut a = ants[i];
        if matches!(a.get_state(), State::NotCarrying) {
            let p = a.get_pos();
            let oc = a.get_pos_old_cell();
            grid.set_cell(p, oc);
            proof {
                lemma_colony_remove(g_pre, *grid, combined, s_len);
                assert(combined.remove(s_len) =~= survivors@ + ants@.skip(i as int + 1));
            }
        } else {
            survivors.push(a);
            proof {
                assert(combined =~= survivors@ + ants@.skip(i as int + 1));
            }
        }
        i = i + 1;
    }
    proof {
        assert(survivors@ + ants@.skip(ants@.len() as int) =~= survivors@);
    }
    *ants = survivors;
}

/// Removing an ant that carries nothing, restoring the cell kind it
/// remembers to the cell it stood on, keeps the rest of the colony
/// consistent and the item total unchanged.
proof fn lemma_colony_remove(g0: Grid, g1: Grid, ants: Seq<Ant>, i: int)
    requires
        colony_ok(&g0, ants),
        0 <= i < ants.len(),
        ants[i].state() is NotCarrying,
        g1.wf(),
        g1.rows() == g0.rows(),
        g1.cols() == g0.cols(),
        g1.cells() == g0.cell_write(ants[i].pos().0 as int, ants[i].pos().1 as int,
            ants[i].prior_cell()),
        forall|k: Cell|
            #[trigger] count_in_grid(g1.cells(), k) == count_in_grid(g0.cells(), k) - (
            if g0.cell_at(ants[i].pos().0 as int, ants[i].pos().1 as int) == k {
                1int
            } else {
                0int
            }) + (if ants[i].prior_cell() == k {
                1int
            } else {
                0int
            }),
        forall|r: int, c: int|
            0 <= r < g0.rows() && 0 <= c < g0.cols() && !(r == ants[i].pos().0 as int && c
                == ants[i].pos().1 as int) ==> g1.cells()[r][c] == g0.cells()[r][c],
    ensures
        colony_ok(&g1, ants.remove(i)),
        total_items(&g1, ants.remove(i)) == total_items(&g0, ants),
{
    let rest = ants.remove(i);
    assert(ants =~= ants.subrange(0, i) + seq![ants[i]] + ants.subrange(i + 1, ants.len() as int));
    assert(rest =~= ants.subrange(0, i) + ants.subrange(i + 1, ants.len() as int));
    lemma_ants_hold_concat(ants.subrange(0, i) + seq![ants[i]], ants.subrange(i + 1,
        ants.len() as int));
    lemma_ants_hold_concat(ants.subrange(0, i), seq![ants[i]]);
    lemma_ants_hold_concat(ants.subrange(0, i), ants.subrange(i + 1, ants.len() as int));
    assert(ants_hold(seq![ants[i]]) == ants[i].holds()) by {
        let s = seq![ants[i]];
        assert(s.len() == 1);
        assert(s.drop_last() =~= Seq::<Ant>::empty());
        assert(ants_hold(s.drop_last()) == 0);
        assert(s.last() == ants[i]);
    }
    assert(ants_hold(ants) == ants_hold(rest) + ants[i].holds());
    assert forall|j: int| 0 <= j < rest.len() implies (#[trigger] rest[j]).ok_for(&g1) by {
        let j0 = if j < i {
            j
        } else {
            j + 1
        };
        assert(rest[j] == ants[j0]);
        assert(ants[j0].ok_for(&g0));
        lemma_mutual_exclusion(&g0, ants, j0, i);
        assert(g1.cells()[ants[j0].pos().0 as int][ants[j0].pos().1 as int]
            == g0.cells()[ants[j0].pos().0 as int][ants[j0].pos().1 as int]);
    }
    assert forall|x: int, y: int| 0 <= x < y < rest.len() implies rest[x].pos() != rest[y].pos() by {
        let x0 = if x < i {
            x
        } else {
            x + 1
        };
        let y0 = if y < i {
            y
        } else {
            y + 1
        };
        assert(rest[x] == ants[x0]);
        assert(rest[y] == ants[y0]);
        lemma_mutual_exclusion(&g0, ants, x0, y0);
    }
}

/// Runs the whole simulation: `num_of_iterations` exploration sweeps with
/// pickup enabled, then cooldown sweeps with pickup disabled until every ant
/// has been removed or `drain_cap` sweeps have run. The returned grid and
/// the ants still alive account for exactly the items the run started with;
/// when the cooldown drained every ant, all items rest on the grid and no
/// cell holds an ant.
pub fn run_simulation(grid: Grid, ants: Vec<Ant>, num_of_iterations: usize, drain_cap: usize) -> (r:
    (Grid, Vec<Ant>))
    requires
        colony_ok(&grid, ants@),
    ensures
        colony_ok(&r.0, r.1@),
        r.0.rows() == grid.rows(),
        r.0.cols() == grid.cols(),
        total_items(&r.0, r.1@) == total_items(&grid, ants@),
        r.1@.len() <= ants@.len(),
        r.1@.len() == 0 ==> count_in_grid(r.0.cells(), Cell::DeadAnt) == total_items(&grid, ants@)
            && count_in_grid(r.0.cells(), Cell::Ant) == 0,
        drain_cap > 0 && r.1@.len() > 0 ==> forall|i: int|
            0 <= i < r.1@.len() ==> (#[trigger] r.1@[i]).state() is Carrying,
{
    let ghost g0 = grid;
    let ghost a0 = ants@;
    let mut grid = grid;
    let mut ants = ants;
    let mut it: usize = 0;
    while it < num_of_iterations
        invariant
            colony_ok(&grid, ants@),
            grid.rows() == g0.rows(),
            grid.cols() == g0.cols(),
            total_items(&grid, ants@) == total_items(&g0, a0),
            ants@.len() == a0.len(),
            it <= num_of_iterations,
        decreases num_of_iterations - it,
    {
        sweep(&mut grid, &mut ants, true);
        it = it + 1;
    }
    let mut sweeps: usize = 0;
    while ants.len() > 0 && sweeps < drain_cap
        invariant
            colony_ok(&grid, ants@),
            grid.rows() == g0.rows(),
            grid.cols() == g0.cols(),
            total_items(&grid, ants@) == total_items(&g0, a0),
            ants@.len() <= a0.len(),
            sweeps <= drain_cap,
            sweeps > 0 ==> forall|i: int|
                0 <= i < ants@.len() ==> (#[trigger] ants@[i]).state() is Carrying,
        decreases drain_cap - sweeps,
    {
        cooldown_sweep(&mut grid, &mut ants);
        sweeps = sweeps + 1;
    }
    (grid, ants)
}

} // verus!
