//! The mobile agent ("ant") and its one-step behavior.
//!
//! An ant remembers its position, the cell kind that occupied that position
//! before it arrived (so the grid can be restored when it leaves), whether it
//! carries an item, and its fixed view radius. One call of `action` advances
//! it by a single simulated step: propose a random move, maybe pick up or
//! drop an item at the destination, then move there if no other ant holds it.

use vstd::prelude::*;
use vstd::arithmetic::div_mod::{lemma_mod_add_multiples_vanish, lemma_mod_self_0, lemma_small_mod};
use crate::environment::{count_in_grid, wrap, Cell, Grid};
use crate::rng::random_below;

verus! {

/// Whether the ant holds an item.
#[derive(Clone, Copy, Debug, PartialEq, Eq, Structural)]
pub enum State {
    Carrying,
    NotCarrying,
}

/// A mobile agent on the grid.
#[derive(Clone, Copy, Debug)]
pub struct Ant {
    curr_pos: ((usize, usize), Cell),
    curr_state: State,
    view_radius: usize,
}

/// `x` to the fourth power.
pub open spec fn fourth(x: int) -> int {
    x * x * x * x
}

/// Probability bounds: for every neighborhood statistic `0 <= d <= n`, the
/// pickup weight `n^4 - d^4` and the drop weight `d^4` both lie between 0 and
/// the common denominator `n^4`, so the pickup probability
/// `1 - (d / n)^4` and the drop probability `(d / n)^4` both lie in `[0, 1]`.
pub proof fn lemma_probability_bounds(d: int, n: int)
    requires
        0 <= d <= n,
    ensures
        0 <= fourth(n) - fourth(d),
        fourth(n) - fourth(d) <= fourth(n),
        0 <= fourth(d) <= fourth(n),
{
    assert(0 <= d * d <= n * n) by (nonlinear_arith)
        requires
            0 <= d <= n,
    ;
    assert(0 <= d * d * d * d <= n * n * n * n) by (nonlinear_arith)
        requires
            0 <= d * d <= n * n,
            0 <= d <= n,
    ;
}

/// The pickup decision's weight as an exact fraction: an item whose
/// neighborhood of `cells_around` cells already holds `dead_around` items is
/// picked up with probability `1 - (dead_around / cells_around)^4`, which is
/// `odds.0 / odds.1` here.
pub fn pick_odds(dead_around: u8, cells_around: u64) -> (odds: (u64, u64))
    requires
        1 <= cells_around <= 224,
        dead_around <= cells_around,
    ensures
        odds.0 == fourth(cells_around as int) - fourth(dead_around as int),
        odds.1 == fourth(cells_around as int),
        odds.0 <= odds.1,
        odds.1 >= 1,
{
    let d4 = fourth_power(dead_around as u64);
    let n4 = fourth_power(cells_around);
    proof {
        lemma_probability_bounds(dead_around as int, cells_around as int);
        lemma_fourth_pos(cells_around as int);
    }
    (n4 - d4, n4)
}

/// The drop decision's weight as an exact fraction: a carried item is dropped
/// on an empty cell whose neighborhood of `cells_around` cells holds
/// `dead_around` items with probability `(dead_around / cells_around)^4`,
/// which is `odds.0 / odds.1` here.
pub fn drop_odds(dead_around: u8, cells_around: u64) -> (odds: (u64, u64))
    requires
        1 <= cells_around <= 224,
        dead_around <= cells_around,
    ensures
        odds.0 == fourth(dead_around as int),
        odds.1 == fourth(cells_around as int),
        odds.0 <= odds.1,
        odds.1 >= 1,
{
    let d4 = fourth_power(dead_around as u64);
    let n4 = fourth_power(cells_around);
    proof {
        lemma_probability_bounds(dead_around as int, cells_around as int);
        lemma_fourth_pos(cells_around as int);
    }
    (d4, n4)
}

/// `x^4` for a small operand.
fn fourth_power(x: u64) -> (r: u64)
    requires
        x <= 224,
    ensures
        r == fourth(x as int),
{
    proof {
        assert(x * x <= 50176) by (nonlinear_arith)
            requires
                x <= 224,
        ;
    }
    let x2 = x * x;
    proof {
        assert(x2 * x2 <= 2517630976) by (nonlinear_arith)
            requires
                x2 <= 50176,
        ;
        assert((x as int * x as int) * (x as int * x as int) == x as int * x as int * x as int
            * x as int) by (nonlinear_arith);
    }
    x2 * x2
}

/// Probability bounds for the local field itself: at every position of every
/// well-formed grid and for every radius, the field `f` counted by the
/// neighborhood statistic lies in `[0, n]` for the neighborhood size
/// `n = (2 * radius + 1)^2 - 1`, so the pickup weight `n^4 - f^4` and the
/// drop weight `f^4` both lie in `[0, n^4]`: the pickup probability
/// `1 - (f / n)^4` and the drop probability `(f / n)^4` lie in `[0, 1]`.
pub proof fn lemma_field_probabilities_in_range(g: &Grid, r: int, c: int, radius: int)
    requires
        radius >= 0,
    ensures
        ({
            let f = g.items_around(r, c, radius) as int;
            let n = (2 * radius + 1) * (2 * radius + 1) - 1;
            &&& 0 <= f <= n
            &&& 0 <= fourth(n) - fourth(f) <= fourth(n)
            &&& 0 <= fourth(f) <= fourth(n)
        }),
{
    g.lemma_items_around_le(r, c, radius);
    lemma_probability_bounds(
        g.items_around(r, c, radius) as int,
        (2 * radius + 1) * (2 * radius + 1) - 1,
    );
}

/// A positive base has a positive fourth power.
proof fn lemma_fourth_pos(n: int)
    requires
        n >= 1,
    ensures
        fourth(n) >= 1,
{
    assert(n * n * n * n >= 1) by (nonlinear_arith)
        requires
            n >= 1,
    ;
}

/// The predecessor of `p` modulo `n`.
fn wrap_dec(p: usize, n: usize) -> (r: usize)
    requires
        n >= 1,
        p < n,
    ensures
        r < n,
        r as int == wrap(p as int - 1, n as nat),
{
    if p == 0 {
        proof {
            lemma_mod_add_multiples_vanish(-1, n as int);
            lemma_small_mod((n - 1) as nat, n as nat);
        }
        n - 1
    } else {
        p - 1
    }
}

/// The successor of `p` modulo `n`.
fn wrap_inc(p: usize, n: usize) -> (r: usize)
    requires
        n >= 1,
        p < n,
    ensures
        r < n,
        r as int == wrap(p as int + 1, n as nat),
{
    if p + 1 == n {
        proof {
            lemma_mod_self_0(n as int);
        }
        0
    } else {
        p + 1
    }
}

/// `q` is one of the eight toroidal neighbors of `p` on a `rows x cols`
/// grid: it differs from `p` by one compass or diagonal step, each
/// coordinate wrapped modulo its own dimension.
pub open spec fn neighbor_step(p: (usize, usize), q: (usize, usize), rows: nat, cols: nat) -> bool {
    let pr: int = p.0 as int;
    let pc: int = p.1 as int;
    let qr: int = q.0 as int;
    let qc: int = q.1 as int;
    ||| (qr == wrap(pr - 1, rows) && qc == pc)
    ||| (qr == wrap(pr + 1, rows) && qc == pc)
    ||| (qr == pr && qc == wrap(pc - 1, cols))
    ||| (qr == pr && qc == wrap(pc + 1, cols))
    ||| (qr == wrap(pr - 1, rows) && qc == wrap(pc - 1, cols))
    ||| (qr == wrap(pr - 1, rows) && qc == wrap(pc + 1, cols))
    ||| (qr == wrap(pr + 1, rows) && qc == wrap(pc - 1, cols))
    ||| (qr == wrap(pr + 1, rows) && qc == wrap(pc + 1, cols))
}

/// Some toroidal neighbor of `p` is occupied by an ant: the one situation
/// in which a step can propose a destination and then leave everything
/// unchanged.
pub open spec fn blocked_neighbor_exists(g: &Grid, p: (usize, usize)) -> bool {
    exists|q: (usize, usize)|
        #[trigger] neighbor_step(p, q, g.rows(), g.cols()) && g.cell_at(q.0 as int,
            q.1 as int) is Ant
}

impl Ant {
    /// The ant's current grid coordinates.
    pub closed spec fn pos(&self) -> (usize, usize) {
        self.curr_pos.0
    }

    /// The cell kind that occupied the ant's current position before it
    /// arrived there.
    pub closed spec fn prior_cell(&self) -> Cell {
        self.curr_pos.1
    }

    /// Whether the ant is carrying an item.
    pub closed spec fn state(&self) -> State {
        self.curr_state
    }

    /// The ant's fixed view radius.
    pub closed spec fn radius(&self) -> nat {
        self.view_radius as nat
    }

    /// The items attributable to this ant: the one it carries, plus the one
    /// resting on the cell it stands on (remembered in `prior_cell` and
    /// restored to the grid when the ant leaves).
    pub open spec fn holds(&self) -> nat {
        (if self.state() is Carrying {
            1nat
        } else {
            0nat
        }) + (if self.prior_cell() is DeadAnt {
            1nat
        } else {
            0nat
        })
    }

    /// The ant is consistent with the grid it lives on: in bounds, with a
    /// usable view radius, standing on a cell the grid marks as an ant's, and
    /// remembering a non-ant cell kind beneath it.
    pub open spec fn ok_for(&self, g: &Grid) -> bool {
        &&& (self.pos().0 as nat) < g.rows()
        &&& (self.pos().1 as nat) < g.cols()
        &&& 1 <= self.radius() <= 7
        &&& !(self.prior_cell() is Ant)
        &&& g.cell_at(self.pos().0 as int, self.pos().1 as int) is Ant
    }

    /// Creates an ant at `pos.0`, remembering `pos.1` as the cell kind that
    /// was there before it, not carrying anything.
    pub fn new(pos: ((usize, usize), Cell), view_radius: usize) -> (a: Ant)
        ensures
            a.pos() == pos.0,
            a.prior_cell() == pos.1,
            a.state() is NotCarrying,
            a.radius() == view_radius,
    {
        Ant { curr_pos: pos, curr_state: State::NotCarrying, view_radius }
    }

    /// The cell kind remembered beneath the ant.
    pub fn get_pos_old_cell(&mut self) -> (c: Cell)
        ensures
            *final(self) == *old(self),
            c == old(self).prior_cell(),
    {
        self.curr_pos.1
    }

    /// The ant's current coordinates.
    pub fn get_pos(&mut self) -> (p: (usize, usize))
        ensures
            *final(self) == *old(self),
            p == old(self).pos(),
    {
        self.curr_pos.0
    }

    /// Whether the ant is carrying an item.
    pub fn get_state(&mut self) -> (s: State)
        ensures
            *final(self) == *old(self),
            s == old(self).state(),
    {
        self.curr_state
    }

    /// Overwrites the carrying state.
    pub fn change_state(&mut self, new_state: State)
        ensures
            final(self).state() == new_state,
            final(self).pos() == old(self).pos(),
            final(self).prior_cell() == old(self).prior_cell(),
            final(self).radius() == old(self).radius(),
    {
        self.curr_state = new_state;
    }

    /// Moves the ant to `new_pos`: the vacated cell is restored to whatever
    /// occupied it before the ant arrived, the destination's previous content
    /// is remembered, and the destination becomes the ant's cell.
    pub fn mov(&mut self, grid: &mut Grid, new_pos: (usize, usize))
        requires
            old(grid).wf(),
            (old(self).pos().0 as nat) < old(grid).rows(),
            (old(self).pos().1 as nat) < old(grid).cols(),
            (new_pos.0 as nat) < old(grid).rows(),
            (new_pos.1 as nat) < old(grid).cols(),
            old(grid).cell_at(old(self).pos().0 as int, old(self).pos().1 as int) is Ant,
            !(old(grid).cell_at(new_pos.0 as int, new_pos.1 as int) is Ant),
        ensures
            final(grid).wf(),
            final(grid).rows() == old(grid).rows(),
            final(grid).cols() == old(grid).cols(),
            final(self).pos() == new_pos,
            final(self).prior_cell() == old(grid).cell_at(new_pos.0 as int, new_pos.1 as int),
            final(self).state() == old(self).state(),
            final(self).radius() == old(self).radius(),
            final(grid).cell_at(new_pos.0 as int, new_pos.1 as int) is Ant,
            final(grid).cell_at(old(self).pos().0 as int, old(self).pos().1 as int) == old(
                self,
            ).prior_cell(),
            forall|r: int, c: int|
                0 <= r < old(grid).rows() && 0 <= c < old(grid).cols() && !(r
                    == old(self).pos().0 as int && c == old(self).pos().1 as int) && !(r
                    == new_pos.0 as int && c == new_pos.1 as int)
                    ==> final(grid).cells()[r][c] == old(grid).cells()[r][c],
            forall|k: Cell|
                #[trigger] count_in_grid(final(grid).cells(), k) == count_in_grid(
                    old(grid).cells(),
                    k,
                ) - (if Cell::Ant == k {
                    1int
                } else {
                    0int
                }) + (if old(self).prior_cell() == k {
                    1int
                } else {
                    0int
                }) - (if old(grid).cell_at(new_pos.0 as int, new_pos.1 as int) == k {
                    1int
                } else {
                    0int
                }) + (if Cell::Ant == k {
                    1int
                } else {
                    0int
                }),
    {
        let ghost p = self.curr_pos.0;
        let cell_of_new_pos = grid.get(new_pos);
        let old_cell_of_curr_pos = self.curr_pos.1;

        grid.set_cell(self.curr_pos.0, old_cell_of_curr_pos);
        self.curr_pos.1 = cell_of_new_pos;

        let ghost mid = *grid;
        grid.set_cell(new_pos, Cell::Ant);
        self.curr_pos.0 = new_pos;
        proof {
            assert(new_pos != p);
            assert(mid.cell_at(new_pos.0 as int, new_pos.1 as int) == old(grid).cell_at(
                new_pos.0 as int,
                new_pos.1 as int,
            ));
        }
    }

    /// Decides probabilistically whether to pick up the item at `pos`: the
    /// fewer items already rest near `pos`, the likelier the pickup. On
    /// success the item leaves the grid and the ant starts carrying it;
    /// otherwise nothing changes.
    pub fn pickup_item(&mut self, grid: &mut Grid, pos: (usize, usize))
        requires
            old(grid).wf(),
            1 <= old(self).radius() <= 7,
            old(self).state() is NotCarrying,
            (pos.0 as nat) < old(grid).rows(),
            (pos.1 as nat) < old(grid).cols(),
            old(grid).cell_at(pos.0 as int, pos.1 as int) is DeadAnt,
        ensures
            final(grid).wf(),
            final(grid).rows() == old(grid).rows(),
            final(grid).cols() == old(grid).cols(),
            final(self).pos() == old(self).pos(),
            final(self).prior_cell() == old(self).prior_cell(),
            final(self).radius() == old(self).radius(),
            count_in_grid(final(grid).cells(), Cell::DeadAnt) + final(self).holds()
                == count_in_grid(old(grid).cells(), Cell::DeadAnt) + old(self).holds(),
            count_in_grid(final(grid).cells(), Cell::Ant) == count_in_grid(
                old(grid).cells(),
                Cell::Ant,
            ),
            (*final(self) == *old(self) && *final(grid) == *old(grid)) || ({
                &&& final(self).state() is Carrying
                &&& final(grid).cell_at(pos.0 as int, pos.1 as int) is Empty
                &&& forall|r: int, c: int|
                    0 <= r < old(grid).rows() && 0 <= c < old(grid).cols() && !(r == pos.0 as int
                        && c == pos.1 as int) ==> final(grid).cells()[r][c]
                        == old(grid).cells()[r][c]
            }),
            old(grid).items_around(pos.0 as int, pos.1 as int, old(self).radius() as int) == 0
                ==> final(self).state() is Carrying && final(grid).cell_at(pos.0 as int,
                pos.1 as int) is Empty,
            old(grid).items_around(pos.0 as int, pos.1 as int, old(self).radius() as int) == (2
                * old(self).radius() + 1) * (2 * old(self).radius() + 1) - 1 ==> *final(self)
                == *old(self) && *final(grid) == *old(grid),
    {
        let side = 2 * self.view_radius + 1;
        proof {
            assert(9 <= side * side <= 225) by (nonlinear_arith)
                requires
                    3 <= side <= 15,
            ;
        }
        let num_of_cells_around = (side * side - 1) as u64;
        let dead_around = grid.dead_ants_around(pos, self.view_radius);
        proof {
            grid.lemma_items_around_le(pos.0 as int, pos.1 as int, self.view_radius as int);
        }
        let odds = pick_odds(dead_around, num_of_cells_around);
        let draw = random_below(odds.1);
        if draw < odds.0 {
            let ghost pre = *grid;
            self.change_state(State::Carrying);
            grid.set_cell(pos, Cell::Empty);
            proof {
                assert forall|r: int, c: int|
                    0 <= r < pre.rows() && 0 <= c < pre.cols() && !(r == pos.0 as int && c
                        == pos.1 as int) implies grid.cells()[r][c] == pre.cells()[r][c] by {
                    assert(grid.cell_at(r, c) == pre.cell_at(r, c));
                }
            }
        } else {
            proof {
                if dead_around == 0 {
                    assert(0int * 0int * 0int * 0int == 0) by (nonlinear_arith);
                    assert(fourth(0) == 0);
                    assert(draw < odds.0);
                    assert(false);
                }
            }
        }
    }

    /// Decides probabilistically whether to drop the carried item on the
    /// empty cell `pos`: the more items already rest near `pos`, the likelier
    /// the drop. On success the item re-enters the grid at `pos` and the ant
    /// stops carrying; otherwise nothing changes.
    pub fn drop_item(&mut self, grid: &mut Grid, pos: (usize, usize))
        requires
            old(grid).wf(),
            1 <= old(self).radius() <= 7,
            old(self).state() is Carrying,
            (pos.0 as nat) < old(grid).rows(),
            (pos.1 as nat) < old(grid).cols(),
            old(grid).cell_at(pos.0 as int, pos.1 as int) is Empty,
        ensures
            final(grid).wf(),
            final(grid).rows() == old(grid).rows(),
            final(grid).cols() == old(grid).cols(),
            final(self).pos() == old(self).pos(),
            final(self).prior_cell() == old(self).prior_cell(),
            final(self).radius() == old(self).radius(),
            count_in_grid(final(grid).cells(), Cell::DeadAnt) + final(self).holds()
                == count_in_grid(old(grid).cells(), Cell::DeadAnt) + old(self).holds(),
            count_in_grid(final(grid).cells(), Cell::Ant) == count_in_grid(
                old(grid).cells(),
                Cell::Ant,
            ),
            (*final(self) == *old(self) && *final(grid) == *old(grid)) || ({
                &&& final(self).state() is NotCarrying
                &&& final(grid).cell_at(pos.0 as int, pos.1 as int) is DeadAnt
                &&& forall|r: int, c: int|
                    0 <= r < old(grid).rows() && 0 <= c < old(grid).cols() && !(r == pos.0 as int
                        && c == pos.1 as int) ==> final(grid).cells()[r][c]
                        == old(grid).cells()[r][c]
            }),
            old(grid).items_around(pos.0 as int, pos.1 as int, old(self).radius() as int) == (2
                * old(self).radius() + 1) * (2 * old(self).radius() + 1) - 1
                ==> final(self).state() is NotCarrying && final(grid).cell_at(pos.0 as int,
                pos.1 as int) is DeadAnt,
            old(grid).items_around(pos.0 as int, pos.1 as int, old(self).radius() as int) == 0
                ==> *final(self) == *old(self) && *final(grid) == *old(grid),
    {
        let side = 2 * self.view_radius + 1;
        proof {
            assert(9 <= side * side <= 225) by (nonlinear_arith)
                requires
                    3 <= side <= 15,
            ;
        }
        let num_of_cells_around = (side * side - 1) as u64;
        let dead_around = grid.dead_ants_around(pos, self.view_radius);
        proof {
            grid.lemma_items_around_le(pos.0 as int, pos.1 as int, self.view_radius as int);
        }
        let odds = drop_odds(dead_around, num_of_cells_around);
        let draw = random_below(odds.1);
        if draw < odds.0 {
            let ghost pre = *grid;
            proof {
                if dead_around == 0 {
                    assert(0int * 0int * 0int * 0int == 0) by (nonlinear_arith);
                    assert(fourth(0) == 0);
                    assert(false);
                }
            }
            self.change_state(State::NotCarrying);
            grid.set_cell(pos, Cell::DeadAnt);
            proof {
                assert forall|r: int, c: int|
                    0 <= r < pre.rows() && 0 <= c < pre.cols() && !(r == pos.0 as int && c
                        == pos.1 as int) implies grid.cells()[r][c] == pre.cells()[r][c] by {
                    assert(grid.cell_at(r, c) == pre.cell_at(r, c));
                }
            }
        }
    }

    /// One simulated step: propose one of the eight neighboring cells
    /// uniformly at random; if the destination holds an item and the ant has
    /// empty jaws (and pickup is allowed this phase) it may pick the item up,
    /// or if the destination is empty and the ant is carrying it may drop its
    /// cargo there; finally the ant moves to the destination unless another
    /// ant occupies it. Whatever the three random draws decide, the step
    /// conserves the items accounted on the grid and to the ant, and it
    /// never changes the number of ant-occupied cells.
    pub fn action(&mut self, grid: &mut Grid, should_pick_after: bool)
        requires
            old(grid).wf(),
            old(self).ok_for(old(grid)),
        ensures
            final(grid).wf(),
            final(grid).rows() == old(grid).rows(),
            final(grid).cols() == old(grid).cols(),
            final(self).ok_for(final(grid)),
            final(self).radius() == old(self).radius(),
            count_in_grid(final(grid).cells(), Cell::DeadAnt) + final(self).holds()
                == count_in_grid(old(grid).cells(), Cell::DeadAnt) + old(self).holds(),
            count_in_grid(final(grid).cells(), Cell::Ant) == count_in_grid(
                old(grid).cells(),
                Cell::Ant,
            ),
            old(self).state() is NotCarrying && !should_pick_after
                ==> final(self).state() is NotCarrying,
            ({
                &&& *final(self) == *old(self)
                &&& *final(grid) == *old(grid)
                &&& blocked_neighbor_exists(old(grid), old(self).pos())
            }) || ({
                &&& final(self).pos() != old(self).pos()
                &&& neighbor_step(old(self).pos(), final(self).pos(), old(grid).rows(),
                    old(grid).cols())
                &&& !(old(grid).cell_at(final(self).pos().0 as int,
                    final(self).pos().1 as int) is Ant)
                &&& final(grid).cell_at(old(self).pos().0 as int, old(self).pos().1 as int)
                    == old(self).prior_cell()
                &&& forall|r: int, c: int|
                    0 <= r < old(grid).rows() && 0 <= c < old(grid).cols()
                        && !(r == old(self).pos().0 as int && c == old(self).pos().1 as int)
                        && !(r == final(self).pos().0 as int && c == final(self).pos().1 as int)
                        ==> final(grid).cells()[r][c] == old(grid).cells()[r][c]
            }),
    {
        let dir = random_below(8) as usize;
        let (r, c) = self.curr_pos.0;
        let rows = grid.height();
        let cols = grid.width();

        let new_pos: (usize, usize) = match dir {
            0 => (wrap_dec(r, rows), c),
            1 => (wrap_inc(r, rows), c),
            2 => (r, wrap_dec(c, cols)),
            3 => (r, wrap_inc(c, cols)),
            4 => (wrap_dec(r, rows), wrap_dec(c, cols)),
            5 => (wrap_dec(r, rows), wrap_inc(c, cols)),
            6 => (wrap_inc(r, rows), wrap_dec(c, cols)),
            _ => (wrap_inc(r, rows), wrap_inc(c, cols)),
        };

        let ghost g0 = *old(grid);
        let ghost a0 = *old(self);
        proof {
            assert(neighbor_step(a0.pos(), new_pos, g0.rows(), g0.cols()));
        }

        if grid.is_dead_cell(new_pos) && matches!(self.curr_state, State::NotCarrying)
            && should_pick_after {
            self.pickup_item(grid, new_pos);
        } else if grid.is_empty_cell(new_pos) && matches!(self.curr_state, State::Carrying) {
            self.drop_item(grid, new_pos);
        }
        proof {
            if !(g0.cell_at(new_pos.0 as int, new_pos.1 as int) is Ant) {
                assert(new_pos != a0.pos());
                assert(grid.cell_at(a0.pos().0 as int, a0.pos().1 as int) == g0.cell_at(
                    a0.pos().0 as int,
                    a0.pos().1 as int,
                ));
            }
        }
        if !grid.is_ant_cell(new_pos) {
            let ghost gm = *grid;
            let ghost am = *self;
            self.mov(grid, new_pos);
            proof {
                assert forall|r2: int, c2: int|
                    0 <= r2 < g0.rows() && 0 <= c2 < g0.cols() && !(r2 == a0.pos().0 as int && c2
                        == a0.pos().1 as int) && !(r2 == new_pos.0 as int && c2
                        == new_pos.1 as int) implies grid.cells()[r2][c2] == g0.cells()[r2][c2] by {
                    assert(gm.cells()[r2][c2] == g0.cells()[r2][c2]);
                }
            }
        }
    }
}

} // verus!
