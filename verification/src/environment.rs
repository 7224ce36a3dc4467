//! The toroidal grid and its cells.
//!
//! A `Grid` is a `num_rows x num_cols` array of `Cell`s with wrap-around
//! indexing: a coordinate is reduced modulo the dimension before use, so
//! leaving one edge re-enters at the opposite edge.

use vstd::prelude::*;
use vstd::arithmetic::div_mod::{
    lemma_add_mod_noop, lemma_mod_add_multiples_vanish, lemma_mod_multiples_vanish,
    lemma_small_mod, lemma_sub_mod_noop,
};
use crate::rng::random_below;

verus! {

/// The toroidal wrap of a coordinate to its dimension: the identity on
/// in-range coordinates, the Euclidean remainder otherwise.
pub open spec fn wrap(i: int, n: nat) -> int {
    if 0 <= i < n {
        i
    } else {
        i % (n as int)
    }
}

/// Wrapping is exactly the Euclidean remainder.
pub proof fn lemma_wrap_eq_mod(i: int, n: nat)
    requires
        n >= 1,
    ensures
        wrap(i, n) == i % (n as int),
{
    if 0 <= i < n {
        lemma_small_mod(i as nat, n);
    }
}

/// Toroidal topology: shifting a coordinate pair by whole multiples of the
/// grid's dimensions resolves to the same cell. In particular a position one
/// full grid height below, or one full grid width to the side of, a position
/// `p` reads the same cell as `p`.
pub proof fn lemma_toroidal_wrap(g: &Grid, r: int, c: int, k: int, l: int)
    requires
        g.wf(),
    ensures
        g.cell_at(r + k * (g.rows() as int), c + l * (g.cols() as int)) == g.cell_at(r, c),
{
    lemma_wrap_eq_mod(r, g.rows());
    lemma_wrap_eq_mod(r + k * (g.rows() as int), g.rows());
    lemma_mod_multiples_vanish(k, r, g.rows() as int);
    assert((g.rows() as int) * k + r == r + k * (g.rows() as int)) by (nonlinear_arith);
    assert(wrap(r + k * (g.rows() as int), g.rows()) == wrap(r, g.rows()));
    lemma_wrap_eq_mod(c, g.cols());
    lemma_wrap_eq_mod(c + l * (g.cols() as int), g.cols());
    lemma_mod_multiples_vanish(l, c, g.cols() as int);
    assert((g.cols() as int) * l + c == c + l * (g.cols() as int)) by (nonlinear_arith);
    assert(wrap(c + l * (g.cols() as int), g.cols()) == wrap(c, g.cols()));
}

/// The character standing for one cell kind in the text rendering.
pub open spec fn cell_text(c: Cell) -> char {
    match c {
        Cell::DeadAnt => 'D',
        Cell::Ant => 'A',
        Cell::Empty => ' ',
    }
}

/// The text of the first `n` cells of a row.
pub open spec fn row_text(row: Seq<Cell>, n: int) -> Seq<char>
    decreases n,
{
    if n <= 0 {
        Seq::empty()
    } else {
        row_text(row, n - 1).push(cell_text(row[n - 1]))
    }
}

/// The text of the first `m` rows of a grid, each row on a line of its own.
pub open spec fn grid_text(cells: Seq<Seq<Cell>>, m: int) -> Seq<char>
    decreases m,
{
    if m <= 0 {
        Seq::empty()
    } else {
        grid_text(cells, m - 1) + row_text(cells[m - 1], cells[m - 1].len() as int).push('\n')
    }
}

impl Cell {
    /// The one-character text for this cell kind: `D` for an item, `A` for
    /// an ant, a blank for an empty cell.
    pub fn symbol(&self) -> (s: &'static str)
        ensures
            s@.len() == 1,
            s@[0] == cell_text(*self),
    {
        proof {
            reveal_strlit("D");
            reveal_strlit("A");
            reveal_strlit(" ");
        }
        match self {
            Cell::DeadAnt => "D",
            Cell::Ant => "A",
            Cell::Empty => " ",
        }
    }
}

/// No entry of `ps` names the coordinate `(r, c)`.
pub open spec fn untouched(ps: Seq<(usize, usize)>, r: int, c: int) -> bool {
    forall|idx: int| 0 <= idx < ps.len() ==> !((#[trigger] ps[idx]).0 == r && ps[idx].1 == c)
}

/// The number of empty cells strictly before the in-bounds coordinate
/// `(r, c)` in row-major order.
pub open spec fn empties_before(cells: Seq<Seq<Cell>>, r: int, c: int) -> nat {
    count_in_grid(cells.take(r), Cell::Empty) + count_in_row(cells[r].take(c), Cell::Empty)
}

/// How many cells of a row hold the value `k`.
pub open spec fn count_in_row(row: Seq<Cell>, k: Cell) -> nat
    decreases row.len(),
{
    if row.len() == 0 {
        0
    } else {
        count_in_row(row.drop_last(), k) + if row.last() == k {
            1nat
        } else {
            0nat
        }
    }
}

/// How many cells of a whole grid hold the value `k`.
pub open spec fn count_in_grid(cells: Seq<Seq<Cell>>, k: Cell) -> nat
    decreases cells.len(),
{
    if cells.len() == 0 {
        0
    } else {
        count_in_grid(cells.drop_last(), k) + count_in_row(cells.last(), k)
    }
}

/// Overwriting one cell of a row changes the count of each value by the
/// departing and arriving contributions.
proof fn lemma_count_in_row_update(row: Seq<Cell>, j: int, v: Cell, k: Cell)
    requires
        0 <= j < row.len(),
    ensures
        count_in_row(row.update(j, v), k) == count_in_row(row, k) - (if row[j] == k {
            1int
        } else {
            0int
        }) + (if v == k {
            1int
        } else {
            0int
        }),
    decreases row.len(),
{
    let up = row.update(j, v);
    if j == row.len() - 1 {
        assert(up.drop_last() =~= row.drop_last());
        assert(up.last() == v);
    } else {
        assert(up.drop_last() =~= row.drop_last().update(j, v));
        assert(up.last() == row.last());
        lemma_count_in_row_update(row.drop_last(), j, v, k);
    }
}

/// Replacing one row of a grid changes the count of each value by the two
/// rows' difference.
proof fn lemma_count_in_grid_update(cells: Seq<Seq<Cell>>, i: int, row: Seq<Cell>, k: Cell)
    requires
        0 <= i < cells.len(),
    ensures
        count_in_grid(cells.update(i, row), k) == count_in_grid(cells, k) - count_in_row(
            cells[i],
            k,
        ) + count_in_row(row, k),
    decreases cells.len(),
{
    let up = cells.update(i, row);
    if i == cells.len() - 1 {
        assert(up.drop_last() =~= cells.drop_last());
        assert(up.last() == row);
    } else {
        assert(up.drop_last() =~= cells.drop_last().update(i, row));
        assert(up.last() == cells.last());
        lemma_count_in_grid_update(cells.drop_last(), i, row, k);
    }
}

/// The in-range representative of `p + i - radius` modulo `n`: the wrapped
/// index of the neighbor at offset `i - radius` from a cell at index `p`.
fn wrap_index(p: usize, i: usize, radius: usize, n: usize) -> (t: usize)
    requires
        n >= 1,
    ensures
        t < n,
        t as int == (p as int + i as int - radius as int) % (n as int),
{
    let pm: usize = p % n;
    let rm: usize = radius % n;
    let im: usize = i % n;
    let a: usize = if pm >= rm {
        pm - rm
    } else {
        n - (rm - pm)
    };
    proof {
        lemma_sub_mod_noop(p as int, radius as int, n as int);
        if pm >= rm {
            lemma_small_mod((pm - rm) as nat, n as nat);
        } else {
            lemma_mod_add_multiples_vanish(pm as int - rm as int, n as int);
            lemma_small_mod((pm as int - rm as int + n as int) as nat, n as nat);
        }
        assert(a as int == (p as int - radius as int) % (n as int));
    }
    let t: usize = if a >= n - im {
        a - (n - im)
    } else {
        a + im
    };
    proof {
        lemma_add_mod_noop(p as int - radius as int, i as int, n as int);
        if a >= n - im {
            lemma_mod_add_multiples_vanish(a as int + im as int - n as int, n as int);
            lemma_small_mod((a + im - n) as nat, n as nat);
        } else {
            lemma_small_mod((a + im) as nat, n as nat);
        }
    }
    t
}

impl Grid {
    /// Contribution of the neighbor at offset `(dx, dy)` from the wrapped
    /// cell `(r, c)`: 1 if it holds an item, 0 otherwise; the center offset
    /// never contributes.
    pub open spec fn item_at_offset(&self, r: int, c: int, dx: int, dy: int) -> nat {
        if dx == 0 && dy == 0 {
            0
        } else if self.cell_at(r + dx, c + dy) is DeadAnt {
            1
        } else {
            0
        }
    }

    /// Items among the first `n` column offsets (from `-radius` upward) in
    /// the offset row `dx`.
    pub open spec fn items_in_offset_row(&self, r: int, c: int, dx: int, radius: int, n: int) -> nat
        decreases n,
    {
        if n <= 0 {
            0
        } else {
            self.items_in_offset_row(r, c, dx, radius, n - 1) + self.item_at_offset(
                r,
                c,
                dx,
                -radius + n - 1,
            )
        }
    }

    /// Items among the first `m` offset rows (from `-radius` upward), each
    /// row scanned over its full width of `2 * radius + 1` offsets.
    pub open spec fn items_in_offset_rows(&self, r: int, c: int, radius: int, m: int) -> nat
        decreases m,
    {
        if m <= 0 {
            0
        } else {
            self.items_in_offset_rows(r, c, radius, m - 1) + self.items_in_offset_row(
                r,
                c,
                -radius + m - 1,
                radius,
                2 * radius + 1,
            )
        }
    }

    /// The number of item-bearing cells in the square neighborhood of
    /// Chebyshev radius `radius` around the wrapped cell `(r, c)`, the center
    /// itself excluded. Offsets are counted one by one, so when the radius
    /// exceeds a dimension a cell reached by several offsets counts as often
    /// as it is reached.
    pub open spec fn items_around(&self, r: int, c: int, radius: int) -> nat {
        self.items_in_offset_rows(r, c, radius, 2 * radius + 1)
    }

    /// An offset row of `n` cells holds at most `n` items.
    proof fn lemma_offset_row_le(&self, r: int, c: int, dx: int, radius: int, n: int)
        ensures
            self.items_in_offset_row(r, c, dx, radius, n) <= if n <= 0 {
                0int
            } else {
                n
            },
        decreases n,
    {
        if n > 0 {
            self.lemma_offset_row_le(r, c, dx, radius, n - 1);
        }
    }

    /// The offset row through the center holds at most `n - 1` items once the
    /// scan has passed the center.
    proof fn lemma_offset_row_center_le(&self, r: int, c: int, radius: int, n: int)
        requires
            radius >= 0,
            n >= radius + 1,
        ensures
            self.items_in_offset_row(r, c, 0, radius, n) <= n - 1,
        decreases n,
    {
        if n == radius + 1 {
            self.lemma_offset_row_le(r, c, 0, radius, n - 1);
            assert(self.item_at_offset(r, c, 0, -radius + n - 1) == 0);
        } else {
            self.lemma_offset_row_center_le(r, c, radius, n - 1);
        }
    }

    /// The whole neighborhood scan of `m` offset rows counts at most
    /// `m * (2 * radius + 1)` items, and one fewer once it has passed the
    /// center row.
    proof fn lemma_offset_rows_le(&self, r: int, c: int, radius: int, m: int)
        requires
            radius >= 0,
        ensures
            0 <= m <= radius ==> self.items_in_offset_rows(r, c, radius, m) <= m * (2 * radius
                + 1),
            m >= radius + 1 ==> self.items_in_offset_rows(r, c, radius, m) <= m * (2 * radius + 1)
                - 1,
        decreases m,
    {
        if m > 0 {
            self.lemma_offset_rows_le(r, c, radius, m - 1);
            if m - 1 == radius {
                self.lemma_offset_row_center_le(r, c, radius, 2 * radius + 1);
            } else {
                self.lemma_offset_row_le(r, c, -radius + m - 1, radius, 2 * radius + 1);
            }
            assert((m - 1) * (2 * radius + 1) + (2 * radius + 1) == m * (2 * radius + 1))
                by (nonlinear_arith);
        }
    }

    /// The neighborhood of radius `radius` holds at most
    /// `(2 * radius + 1)^2 - 1` items.
    pub proof fn lemma_items_around_le(&self, r: int, c: int, radius: int)
        requires
            radius >= 0,
        ensures
            self.items_around(r, c, radius) <= (2 * radius + 1) * (2 * radius + 1) - 1,
    {
        self.lemma_offset_rows_le(r, c, radius, 2 * radius + 1);
    }
}

/// Remainders modulo `n` of two integers less than `n` apart are equal only
/// when the integers are.
proof fn lemma_mod_inj(a: int, b: int, n: int)
    requires
        n >= 1,
        -n < a - b < n,
        a % n == b % n,
    ensures
        a == b,
{
    lemma_sub_mod_noop(a, b, n);
    lemma_small_mod(0nat, n as nat);
    if a - b > 0 {
        lemma_small_mod((a - b) as nat, n as nat);
    } else if a - b < 0 {
        lemma_mod_add_multiples_vanish(a - b, n);
        lemma_small_mod((a - b + n) as nat, n as nat);
    }
}

impl Grid {
    /// Both grids assign one neighborhood offset the same contribution,
    /// unless it is the one offset whose target cell differs.
    proof fn lemma_item_at_offset_diff(
        g1: &Grid,
        g2: &Grid,
        r: int,
        c: int,
        radius: int,
        dx: int,
        dy: int,
        dx0: int,
        dy0: int,
    )
        requires
            g1.wf(),
            g2.wf(),
            g2.rows() == g1.rows(),
            g2.cols() == g1.cols(),
            radius >= 1,
            2 * radius + 1 <= g1.rows(),
            2 * radius + 1 <= g1.cols(),
            -radius <= dx <= radius,
            -radius <= dy <= radius,
            !(dx == 0 && dy == 0),
            !(g1.cell_at(r + dx, c + dy) is DeadAnt),
            g2.cell_at(r + dx, c + dy) is DeadAnt,
            forall|i: int, j: int|
                0 <= i < g1.rows() && 0 <= j < g1.cols() && !(i == wrap(r + dx, g1.rows()) && j
                    == wrap(c + dy, g1.cols())) ==> g2.cells()[i][j] == g1.cells()[i][j],
            -radius <= dx0 <= radius,
            -radius <= dy0 <= radius,
        ensures
            g2.item_at_offset(r, c, dx0, dy0) as int == g1.item_at_offset(r, c, dx0, dy0) + (
            if dx0 == dx && dy0 == dy {
                1int
            } else {
                0int
            }),
    {
        let rows: int = g1.rows() as int;
        let cols: int = g1.cols() as int;
        lemma_wrap_eq_mod(r + dx, g1.rows());
        lemma_wrap_eq_mod(c + dy, g1.cols());
        lemma_wrap_eq_mod(r + dx0, g1.rows());
        lemma_wrap_eq_mod(c + dy0, g1.cols());
        if dx0 == dx && dy0 == dy {
        } else if dx0 == 0 && dy0 == 0 {
        } else {
            if wrap(r + dx0, g1.rows()) == wrap(r + dx, g1.rows()) {
                lemma_mod_inj(r + dx0, r + dx, rows);
            }
            if wrap(c + dy0, g1.cols()) == wrap(c + dy, g1.cols()) {
                lemma_mod_inj(c + dy0, c + dy, cols);
            }
            assert(!(wrap(r + dx0, g1.rows()) == wrap(r + dx, g1.rows()) && wrap(c + dy0,
                g1.cols()) == wrap(c + dy, g1.cols())));
        }
    }

    /// The two grids' partial row scans differ by exactly the changed
    /// offset, once the scan has passed it.
    proof fn lemma_offset_row_diff(
        g1: &Grid,
        g2: &Grid,
        r: int,
        c: int,
        radius: int,
        dx: int,
        dy: int,
        dx0: int,
        n: int,
    )
        requires
            g1.wf(),
            g2.wf(),
            g2.rows() == g1.rows(),
            g2.cols() == g1.cols(),
            radius >= 1,
            2 * radius + 1 <= g1.rows(),
            2 * radius + 1 <= g1.cols(),
            -radius <= dx <= radius,
            -radius <= dy <= radius,
            !(dx == 0 && dy == 0),
            !(g1.cell_at(r + dx, c + dy) is DeadAnt),
            g2.cell_at(r + dx, c + dy) is DeadAnt,
            forall|i: int, j: int|
                0 <= i < g1.rows() && 0 <= j < g1.cols() && !(i == wrap(r + dx, g1.rows()) && j
                    == wrap(c + dy, g1.cols())) ==> g2.cells()[i][j] == g1.cells()[i][j],
            -radius <= dx0 <= radius,
            0 <= n <= 2 * radius + 1,
        ensures
            g2.items_in_offset_row(r, c, dx0, radius, n) as int == g1.items_in_offset_row(
                r,
                c,
                dx0,
                radius,
                n,
            ) + (if dx0 == dx && dy < -radius + n {
                1int
            } else {
                0int
            }),
        decreases n,
    {
        if n > 0 {
            Self::lemma_offset_row_diff(g1, g2, r, c, radius, dx, dy, dx0, n - 1);
            Self::lemma_item_at_offset_diff(g1, g2, r, c, radius, dx, dy, dx0, -radius + n - 1);
        }
    }

    /// The two grids' partial neighborhood scans differ by exactly the
    /// changed offset, once the scan has passed its row.
    proof fn lemma_offset_rows_diff(
        g1: &Grid,
        g2: &Grid,
        r: int,
        c: int,
        radius: int,
        dx: int,
        dy: int,
        m: int,
    )
        requires
            g1.wf(),
            g2.wf(),
            g2.rows() == g1.rows(),
            g2.cols() == g1.cols(),
            radius >= 1,
            2 * radius + 1 <= g1.rows(),
            2 * radius + 1 <= g1.cols(),
            -radius <= dx <= radius,
            -radius <= dy <= radius,
            !(dx == 0 && dy == 0),
            !(g1.cell_at(r + dx, c + dy) is DeadAnt),
            g2.cell_at(r + dx, c + dy) is DeadAnt,
            forall|i: int, j: int|
                0 <= i < g1.rows() && 0 <= j < g1.cols() && !(i == wrap(r + dx, g1.rows()) && j
                    == wrap(c + dy, g1.cols())) ==> g2.cells()[i][j] == g1.cells()[i][j],
            0 <= m <= 2 * radius + 1,
        ensures
            g2.items_in_offset_rows(r, c, radius, m) as int == g1.items_in_offset_rows(
                r,
                c,
                radius,
                m,
            ) + (if dx < -radius + m {
                1int
            } else {
                0int
            }),
        decreases m,
    {
        if m > 0 {
            Self::lemma_offset_rows_diff(g1, g2, r, c, radius, dx, dy, m - 1);
            Self::lemma_offset_row_diff(
                g1,
                g2,
                r,
                c,
                radius,
                dx,
                dy,
                -radius + m - 1,
                2 * radius + 1,
            );
        }
    }
}

/// Monotonicity of the local field in its neighborhood's contents: the
/// statistic is a count, so it is never negative, and placing one more item
/// on a cell of the neighborhood of `(r, c)` — at offset `(dx, dy)` from its
/// center, everything else unchanged — raises it by exactly one. The
/// neighborhood must fit inside the grid (`2 * radius + 1` at most each
/// dimension), else offsets wrap onto one another and the changed cell is
/// counted once per offset that reaches it.
pub proof fn lemma_items_around_increment(
    g1: &Grid,
    g2: &Grid,
    r: int,
    c: int,
    radius: int,
    dx: int,
    dy: int,
)
    requires
        g1.wf(),
        g2.wf(),
        g2.rows() == g1.rows(),
        g2.cols() == g1.cols(),
        radius >= 1,
        2 * radius + 1 <= g1.rows(),
        2 * radius + 1 <= g1.cols(),
        -radius <= dx <= radius,
        -radius <= dy <= radius,
        !(dx == 0 && dy == 0),
        !(g1.cell_at(r + dx, c + dy) is DeadAnt),
        g2.cell_at(r + dx, c + dy) is DeadAnt,
        forall|i: int, j: int|
            0 <= i < g1.rows() && 0 <= j < g1.cols() && !(i == wrap(r + dx, g1.rows()) && j
                == wrap(c + dy, g1.cols())) ==> g2.cells()[i][j] == g1.cells()[i][j],
    ensures
        g2.items_around(r, c, radius) == g1.items_around(r, c, radius) + 1,
{
    Grid::lemma_offset_rows_diff(g1, g2, r, c, radius, dx, dy, 2 * radius + 1);
}

/// An all-empty row counts its whole length as empty and nothing else.
proof fn lemma_count_empty_row(row: Seq<Cell>, k: Cell)
    requires
        forall|i: int| 0 <= i < row.len() ==> row[i] == Cell::Empty,
    ensures
        count_in_row(row, k) == if k is Empty {
            row.len()
        } else {
            0nat
        },
    decreases row.len(),
{
    if row.len() > 0 {
        lemma_count_empty_row(row.drop_last(), k);
    }
}

/// An all-empty rectangular grid counts its whole area as empty and nothing
/// else.
proof fn lemma_count_empty_grid(cells: Seq<Seq<Cell>>, cols: nat, k: Cell)
    requires
        forall|i: int| 0 <= i < cells.len() ==> (#[trigger] cells[i]).len() == cols,
        forall|i: int, j: int| 0 <= i < cells.len() && 0 <= j < cols ==> cells[i][j] == Cell::Empty,
    ensures
        count_in_grid(cells, k) == if k is Empty {
            cells.len() * cols
        } else {
            0nat
        },
    decreases cells.len(),
{
    if cells.len() > 0 {
        lemma_count_empty_grid(cells.drop_last(), cols, k);
        lemma_count_empty_row(cells.last(), k);
        assert((cells.len() - 1) * cols + cols == cells.len() * cols) by (nonlinear_arith);
    }
}

/// One grid location: an unclaimed item (a "dead ant" in the cemetery-building
/// reading of the algorithm), a live agent, or nothing.
#[derive(Clone, Copy, Debug, PartialEq, Eq, Structural)]
pub enum Cell {
    DeadAnt,
    Ant,
    Empty,
}

/// A toroidal 2D array of cells.
pub struct Grid {
    num_rows: usize,
    num_cols: usize,
    m: Vec<Vec<Cell>>,
}

impl Grid {
    /// Number of rows.
    pub closed spec fn rows(&self) -> nat {
        self.num_rows as nat
    }

    /// Number of columns.
    pub closed spec fn cols(&self) -> nat {
        self.num_cols as nat
    }

    /// The grid contents as a sequence of rows.
    pub closed spec fn cells(&self) -> Seq<Seq<Cell>> {
        self.m@.map_values(|row: Vec<Cell>| row@)
    }

    /// Well-formedness: both dimensions are at least 1, the cell count fits in
    /// a `usize`, and the row sequence is rectangular.
    pub open spec fn wf(&self) -> bool {
        &&& self.rows() >= 1
        &&& self.cols() >= 1
        &&& self.rows() * self.cols() <= usize::MAX
        &&& self.cells().len() == self.rows()
        &&& forall|i: int|
            0 <= i < self.rows() ==> (#[trigger] self.cells()[i]).len() == self.cols()
    }

    /// The cell that an arbitrary (possibly out-of-range) coordinate pair
    /// resolves to, after toroidal wrapping.
    pub open spec fn cell_at(&self, r: int, c: int) -> Cell {
        self.cells()[wrap(r, self.rows())][wrap(c, self.cols())]
    }
}

/// Creates an empty, well-formed grid.
impl Grid {
    pub fn new(num_rows: usize, num_cols: usize) -> (g: Grid)
        requires
            num_rows >= 1,
            num_cols >= 1,
            num_rows * num_cols <= usize::MAX,
        ensures
            g.wf(),
            g.rows() == num_rows,
            g.cols() == num_cols,
            forall|i: int, j: int|
                0 <= i < num_rows && 0 <= j < num_cols ==> g.cells()[i][j] == Cell::Empty,
            count_in_grid(g.cells(), Cell::Empty) == num_rows * num_cols,
            count_in_grid(g.cells(), Cell::DeadAnt) == 0,
            count_in_grid(g.cells(), Cell::Ant) == 0,
    {
        let mut m: Vec<Vec<Cell>> = Vec::new();
        let mut i: usize = 0;
        while i < num_rows
            invariant
                i <= num_rows,
                m@.len() == i,
                forall|r: int|
                    0 <= r < i ==> (#[trigger] m@[r])@.len() == num_cols,
                forall|r: int, c: int|
                    0 <= r < i && 0 <= c < num_cols ==> m@[r]@[c] == Cell::Empty,
            decreases num_rows - i,
        {
            let mut row: Vec<Cell> = Vec::new();
            let mut j: usize = 0;
            while j < num_cols
                invariant
                    j <= num_cols,
                    row@.len() == j,
                    forall|c: int| 0 <= c < j ==> row@[c] == Cell::Empty,
                decreases num_cols - j,
            {
                row.push(Cell::Empty);
                j = j + 1;
            }
            m.push(row);
            i = i + 1;
        }
        let g = Grid { num_rows, num_cols, m };
        proof {
            lemma_count_empty_grid(g.cells(), num_cols as nat, Cell::Empty);
            lemma_count_empty_grid(g.cells(), num_cols as nat, Cell::DeadAnt);
            lemma_count_empty_grid(g.cells(), num_cols as nat, Cell::Ant);
        }
        g
    }

    /// The number of columns.
    pub fn width(&mut self) -> (w: usize)
        ensures
            *final(self) == *old(self),
            w == old(self).cols(),
    {
        self.num_cols
    }

    /// The number of rows.
    pub fn height(&mut self) -> (h: usize)
        ensures
            *final(self) == *old(self),
            h == old(self).rows(),
    {
        self.num_rows
    }

    /// Reads the cell at a coordinate pair, wrapping each coordinate modulo
    /// the corresponding dimension.
    pub fn get(&mut self, cell: (usize, usize)) -> (c: Cell)
        requires
            old(self).wf(),
        ensures
            *final(self) == *old(self),
            c == old(self).cell_at(cell.0 as int, cell.1 as int),
    {
        let r = cell.0 % self.num_rows;
        let c = cell.1 % self.num_cols;
        proof {
            lemma_wrap_eq_mod(cell.0 as int, self.rows());
            lemma_wrap_eq_mod(cell.1 as int, self.cols());
        }
        self.m[r][c]
    }

    /// Does the (wrapped) coordinate hold an unclaimed item?
    pub fn is_dead_cell(&mut self, cell: (usize, usize)) -> (b: bool)
        requires
            old(self).wf(),
        ensures
            *final(self) == *old(self),
            b == (old(self).cell_at(cell.0 as int, cell.1 as int) is DeadAnt),
    {
        let r = cell.0 % self.num_rows;
        let c = cell.1 % self.num_cols;
        proof {
            lemma_wrap_eq_mod(cell.0 as int, self.rows());
            lemma_wrap_eq_mod(cell.1 as int, self.cols());
        }
        matches!(self.m[r][c], Cell::DeadAnt)
    }

    /// Does the (wrapped) coordinate hold nothing?
    pub fn is_empty_cell(&mut self, cell: (usize, usize)) -> (b: bool)
        requires
            old(self).wf(),
        ensures
            *final(self) == *old(self),
            b == (old(self).cell_at(cell.0 as int, cell.1 as int) is Empty),
    {
        let r = cell.0 % self.num_rows;
        let c = cell.1 % self.num_cols;
        proof {
            lemma_wrap_eq_mod(cell.0 as int, self.rows());
            lemma_wrap_eq_mod(cell.1 as int, self.cols());
        }
        matches!(self.m[r][c], Cell::Empty)
    }

    /// Does the (wrapped) coordinate hold an agent?
    pub fn is_ant_cell(&mut self, cell: (usize, usize)) -> (b: bool)
        requires
            old(self).wf(),
        ensures
            *final(self) == *old(self),
            b == (old(self).cell_at(cell.0 as int, cell.1 as int) is Ant),
    {
        let r = cell.0 % self.num_rows;
        let c = cell.1 % self.num_cols;
        proof {
            lemma_wrap_eq_mod(cell.0 as int, self.rows());
            lemma_wrap_eq_mod(cell.1 as int, self.cols());
        }
        matches!(self.m[r][c], Cell::Ant)
    }

    /// The grid contents after writing `v` at the wrapped coordinate `(r, c)`.
    pub open spec fn cell_write(self, r: int, c: int, v: Cell) -> Seq<Seq<Cell>> {
        let wr = wrap(r, self.rows());
        let wc = wrap(c, self.cols());
        self.cells().update(wr, self.cells()[wr].update(wc, v))
    }

    /// Writes a cell at a coordinate pair, wrapping each coordinate modulo the
    /// corresponding dimension.
    pub fn set_cell(&mut self, cell: (usize, usize), new_state: Cell)
        requires
            old(self).wf(),
        ensures
            final(self).wf(),
            final(self).rows() == old(self).rows(),
            final(self).cols() == old(self).cols(),
            final(self).cells() == old(self).cell_write(cell.0 as int, cell.1 as int, new_state),
            final(self).cell_at(cell.0 as int, cell.1 as int) == new_state,
            forall|r: int, c: int|
                !(wrap(r, old(self).rows()) == wrap(cell.0 as int, old(self).rows()) && wrap(
                    c,
                    old(self).cols(),
                ) == wrap(cell.1 as int, old(self).cols())) ==> #[trigger] final(self).cell_at(
                    r,
                    c,
                ) == old(self).cell_at(r, c),
            forall|k: Cell|
                #[trigger] count_in_grid(final(self).cells(), k) == count_in_grid(
                    old(self).cells(),
                    k,
                ) - (if old(self).cell_at(cell.0 as int, cell.1 as int) == k {
                    1int
                } else {
                    0int
                }) + (if new_state == k {
                    1int
                } else {
                    0int
                }),
    {
        let r = cell.0 % self.num_rows;
        let c = cell.1 % self.num_cols;
        let ghost pre = *self;
        proof {
            lemma_wrap_eq_mod(cell.0 as int, self.rows());
            lemma_wrap_eq_mod(cell.1 as int, self.cols());
        }
        self.m[r].set(c, new_state);
        proof {
            assert(self.cells() =~= pre.cells().update(
                r as int,
                pre.cells()[r as int].update(c as int, new_state),
            ));
            lemma_set_cell_post(pre, *self, cell, r, c, new_state);
        }
    }

    /// Counts the item-bearing cells in the square neighborhood of Chebyshev
    /// radius `view_radius` around the wrapped coordinate, the center cell
    /// itself excluded; offsets wrap at the boundaries.
    pub fn dead_ants_around(&mut self, cell: (usize, usize), view_radius: usize) -> (count: u8)
        requires
            old(self).wf(),
            view_radius <= 7,
        ensures
            *final(self) == *old(self),
            count as nat == old(self).items_around(cell.0 as int, cell.1 as int,
                view_radius as int),
    {
        let ghost r0: int = cell.0 as int;
        let ghost c0: int = cell.1 as int;
        let ghost rad: int = view_radius as int;
        let side: usize = 2 * view_radius + 1;
        let mut count: u8 = 0;
        let mut i: usize = 0;
        while i < side
            invariant
                self.wf(),
                *self == *old(self),
                side == 2 * rad + 1,
                rad == view_radius,
                view_radius <= 7,
                r0 == cell.0,
                c0 == cell.1,
                i <= side,
                count as nat == self.items_in_offset_rows(r0, c0, rad, i as int),
                count <= i * side,
            decreases side - i,
        {
            let mut j: usize = 0;
            while j < side
                invariant
                    self.wf(),
                    *self == *old(self),
                    side == 2 * rad + 1,
                    rad == view_radius,
                    view_radius <= 7,
                    r0 == cell.0,
                    c0 == cell.1,
                    i < side,
                    j <= side,
                    count as nat == self.items_in_offset_rows(r0, c0, rad, i as int)
                        + self.items_in_offset_row(r0, c0, -rad + i, rad, j as int),
                    count <= i * side + j,
                decreases side - j,
            {
                if !(i == view_radius && j == view_radius) {
                    let rr = wrap_index(cell.0, i, view_radius, self.num_rows);
                    let cc = wrap_index(cell.1, j, view_radius, self.num_cols);
                    proof {
                        lemma_wrap_eq_mod(r0 + (i - rad), self.rows());
                        lemma_wrap_eq_mod(c0 + (j - rad), self.cols());
                        assert(self.cell_at(r0 + (i - rad), c0 + (j - rad)) == self.cells()[
                        rr as int][cc as int]);
                    }
                    if matches!(self.m[rr][cc], Cell::DeadAnt) {
                        proof {
                            assert(count as int + 1 <= 255) by (nonlinear_arith)
                                requires
                                    count as int <= i as int * side as int + j as int,
                                    (i as int) < side as int,
                                    (j as int) < side as int,
                                    side as int <= 15,
                            ;
                        }
                        count = count + 1;
                    }
                }
                j = j + 1;
            }
            proof {
                assert((i + 1) * side == i * side + side) by (nonlinear_arith);
            }
            i = i + 1;
        }
        count
    }

    /// Counts the cells of the whole grid that hold `kind`.
    pub fn count_cells(&mut self, kind: Cell) -> (count: usize)
        requires
            old(self).wf(),
        ensures
            *final(self) == *old(self),
            count == count_in_grid(old(self).cells(), kind),
    {
        let rows = self.num_rows;
        let cols = self.num_cols;
        let mut count: usize = 0;
        let mut i: usize = 0;
        while i < rows
            invariant
                self.wf(),
                *self == *old(self),
                rows == self.rows(),
                cols == self.cols(),
                i <= rows,
                count == count_in_grid(self.cells().take(i as int), kind),
                count <= i * cols,
            decreases rows - i,
        {
            let mut j: usize = 0;
            while j < cols
                invariant
                    self.wf(),
                    *self == *old(self),
                    rows == self.rows(),
                    cols == self.cols(),
                    i < rows,
                    j <= cols,
                    count == count_in_grid(self.cells().take(i as int), kind) + count_in_row(
                        self.cells()[i as int].take(j as int),
                        kind,
                    ),
                    count <= i * cols + j,
                decreases cols - j,
            {
                proof {
                    assert(count as int + 1 <= i as int * cols as int + j as int + 1);
                    assert(i as int * cols as int + j as int + 1 <= rows as int * cols as int)
                        by (nonlinear_arith)
                        requires
                            (i as int) < rows as int,
                            (j as int) < cols as int,
                    ;
                    assert(self.cells()[i as int].take(j as int + 1).drop_last()
                        =~= self.cells()[i as int].take(j as int));
                }
                if matches!(self.m[i][j], Cell::Empty) {
                    if matches!(kind, Cell::Empty) {
                        count = count + 1;
                    }
                } else if matches!(self.m[i][j], Cell::DeadAnt) {
                    if matches!(kind, Cell::DeadAnt) {
                        count = count + 1;
                    }
                } else {
                    if matches!(kind, Cell::Ant) {
                        count = count + 1;
                    }
                }
                j = j + 1;
            }
            proof {
                assert(self.cells().take(i as int + 1).drop_last() =~= self.cells().take(i as int));
                assert(self.cells()[i as int].take(cols as int) =~= self.cells()[i as int]);
                assert((i + 1) * cols == i * cols + cols) by (nonlinear_arith);
            }
            i = i + 1;
        }
        proof {
            assert(self.cells().take(rows as int) =~= self.cells());
        }
        count
    }

    /// Returns the coordinates of the `k`-th empty cell in row-major order:
    /// exactly `k` empty cells lie strictly before the returned position.
    fn find_kth_empty(&mut self, k: usize) -> (pos: (usize, usize))
        requires
            old(self).wf(),
            k < count_in_grid(old(self).cells(), Cell::Empty),
        ensures
            *final(self) == *old(self),
            pos.0 < old(self).rows(),
            pos.1 < old(self).cols(),
            old(self).cell_at(pos.0 as int, pos.1 as int) is Empty,
            empties_before(old(self).cells(), pos.0 as int, pos.1 as int) == k,
    {
        let rows = self.num_rows;
        let cols = self.num_cols;
        let mut seen: usize = 0;
        let mut i: usize = 0;
        while i < rows
            invariant
                self.wf(),
                *self == *old(self),
                rows == self.rows(),
                cols == self.cols(),
                i <= rows,
                k < count_in_grid(self.cells(), Cell::Empty),
                seen == count_in_grid(self.cells().take(i as int), Cell::Empty),
                seen <= k,
            decreases rows - i,
        {
            let mut j: usize = 0;
            while j < cols
                invariant
                    self.wf(),
                    *self == *old(self),
                    rows == self.rows(),
                    cols == self.cols(),
                    i < rows,
                    j <= cols,
                    k < count_in_grid(self.cells(), Cell::Empty),
                    seen == count_in_grid(self.cells().take(i as int), Cell::Empty)
                        + count_in_row(self.cells()[i as int].take(j as int), Cell::Empty),
                    seen <= k,
                decreases cols - j,
            {
                proof {
                    assert(self.cells()[i as int].take(j as int + 1).drop_last()
                        =~= self.cells()[i as int].take(j as int));
                }
                if matches!(self.m[i][j], Cell::Empty) {
                    if seen == k {
                        return (i, j);
                    }
                    seen = seen + 1;
                }
                j = j + 1;
            }
            proof {
                assert(self.cells().take(i as int + 1).drop_last() =~= self.cells().take(i as int));
                assert(self.cells()[i as int].take(cols as int) =~= self.cells()[i as int]);
            }
            i = i + 1;
        }
        proof {
            assert(self.cells().take(rows as int) =~= self.cells());
        }
        vstd::pervasive::unreached()
    }

    /// Picks an empty cell uniformly at random, or reports that the grid has
    /// none.
    pub fn random_empty_cell(&mut self) -> (pos: Option<(usize, usize)>)
        requires
            old(self).wf(),
        ensures
            *final(self) == *old(self),
            pos is Some <==> count_in_grid(old(self).cells(), Cell::Empty) > 0,
            pos matches Some(p) ==> p.0 < old(self).rows() && p.1 < old(self).cols() && old(
                self,
            ).cell_at(p.0 as int, p.1 as int) is Empty,
    {
        let e = self.count_cells(Cell::Empty);
        if e == 0 {
            None
        } else {
            let j = random_below(e as u64);
            proof {
                assert(j <= usize::MAX as u64);
            }
            Some(self.find_kth_empty(j as usize))
        }
    }

    /// The grid as text: one line per row, one character per cell.
    pub fn to_text(&mut self) -> (s: String)
        requires
            old(self).wf(),
        ensures
            *final(self) == *old(self),
            s@ == grid_text(old(self).cells(), old(self).rows() as int),
    {
        let rows = self.num_rows;
        let cols = self.num_cols;
        let mut s = String::new();
        let mut i: usize = 0;
        while i < rows
            invariant
                self.wf(),
                *self == *old(self),
                rows == self.rows(),
                cols == self.cols(),
                i <= rows,
                s@ == grid_text(self.cells(), i as int),
            decreases rows - i,
        {
            let mut j: usize = 0;
            while j < cols
                invariant
                    self.wf(),
                    *self == *old(self),
                    rows == self.rows(),
                    cols == self.cols(),
                    i < rows,
                    j <= cols,
                    s@ == grid_text(self.cells(), i as int) + row_text(
                        self.cells()[i as int],
                        j as int,
                    ),
                decreases cols - j,
            {
                let sym = self.m[i][j].symbol();
                s.append(sym);
                proof {
                    assert(sym@ =~= seq![cell_text(self.cells()[i as int][j as int])]);
                    assert(s@ =~= grid_text(self.cells(), i as int) + row_text(
                        self.cells()[i as int],
                        j as int + 1,
                    ));
                }
                j = j + 1;
            }
            s.append("\n");
            proof {
                reveal_strlit("\n");
                assert(s@ =~= grid_text(self.cells(), i as int + 1));
            }
            i = i + 1;
        }
        s
    }

    /// Places `num_items` copies of `item` on randomly chosen empty cells and
    /// returns their coordinates. Fails fast, leaving the grid untouched,
    /// unless strictly fewer items are requested than there are empty cells,
    /// so the placement can never stall hunting for room.
    pub fn randomly_populate(&mut self, num_items: usize, item: Cell) -> (placed: Option<
        Vec<(usize, usize)>,
    >)
        requires
            old(self).wf(),
            !(item is Empty),
        ensures
            final(self).wf(),
            final(self).rows() == old(self).rows(),
            final(self).cols() == old(self).cols(),
            placed is None ==> *final(self) == *old(self) && num_items >= count_in_grid(
                old(self).cells(),
                Cell::Empty,
            ),
            placed matches Some(ps) ==> {
                &&& num_items < count_in_grid(old(self).cells(), Cell::Empty)
                &&& ps@.len() == num_items
                &&& forall|a: int|
                    0 <= a < num_items ==> (#[trigger] ps@[a]).0 < old(self).rows() && ps@[a].1
                        < old(self).cols()
                &&& forall|a: int, b: int| 0 <= a < b < num_items ==> ps@[a] != ps@[b]
                &&& forall|a: int|
                    0 <= a < num_items ==> final(self).cell_at((#[trigger] ps@[a]).0 as int,
                        ps@[a].1 as int) == item
                &&& forall|r: int, c: int|
                    0 <= r < old(self).rows() && 0 <= c < old(self).cols() && untouched(ps@, r, c)
                        ==> final(self).cells()[r][c] == old(self).cells()[r][c]
                &&& count_in_grid(final(self).cells(), Cell::Empty) == count_in_grid(
                    old(self).cells(),
                    Cell::Empty,
                ) - num_items
                &&& count_in_grid(final(self).cells(), item) == count_in_grid(
                    old(self).cells(),
                    item,
                ) + num_items
                &&& forall|k: Cell|
                    k != item && !(k is Empty) ==> #[trigger] count_in_grid(final(self).cells(), k)
                        == count_in_grid(old(self).cells(), k)
            },
    {
        let e = self.count_cells(Cell::Empty);
        if num_items >= e {
            return None;
        }
        let mut ps: Vec<(usize, usize)> = Vec::new();
        let mut placed: usize = 0;
        while placed < num_items
            invariant
                self.wf(),
                self.rows() == old(self).rows(),
                self.cols() == old(self).cols(),
                !(item is Empty),
                e == count_in_grid(old(self).cells(), Cell::Empty),
                num_items < e,
                placed <= num_items,
                ps@.len() == placed,
                count_in_grid(self.cells(), Cell::Empty) == e - placed,
                count_in_grid(self.cells(), item) == count_in_grid(old(self).cells(), item)
                    + placed,
                forall|k: Cell|
                    k != item && !(k is Empty) ==> #[trigger] count_in_grid(self.cells(), k)
                        == count_in_grid(old(self).cells(), k),
                forall|a: int|
                    0 <= a < placed ==> (#[trigger] ps@[a]).0 < self.rows() && ps@[a].1
                        < self.cols(),
                forall|a: int|
                    0 <= a < placed ==> self.cell_at((#[trigger] ps@[a]).0 as int,
                        ps@[a].1 as int) == item,
                forall|a: int, b: int| 0 <= a < b < placed ==> ps@[a] != ps@[b],
                forall|r: int, c: int|
                    0 <= r < self.rows() && 0 <= c < self.cols() && untouched(ps@, r, c)
                        ==> self.cells()[r][c] == old(self).cells()[r][c],
            decreases num_items - placed,
        {
            let ghost pre = *self;
            let ghost ps_pre = ps@;
            let pos_opt = self.random_empty_cell();
            match pos_opt {
                None => {
                    proof {
                        assert(false);
                    }
                    return None;
                },
                Some(pos) => {
                    self.set_cell(pos, item);
                    ps.push(pos);
                    placed = placed + 1;
                    proof {
                        assert(ps@ =~= ps_pre.push(pos));
                        assert forall|a: int, b: int| 0 <= a < b < placed implies ps@[a]
                            != ps@[b] by {
                            if b == placed - 1 {
                                assert(pre.cell_at(ps@[a].0 as int, ps@[a].1 as int) == item);
                                assert(pre.cell_at(pos.0 as int, pos.1 as int) is Empty);
                            }
                        }
                        assert forall|r: int, c: int|
                            0 <= r < self.rows() && 0 <= c < self.cols() && untouched(ps@, r, c)
                            implies self.cells()[r][c] == old(self).cells()[r][c] by {
                            assert forall|idx: int| 0 <= idx < ps_pre.len() implies !((
                            #[trigger] ps_pre[idx]).0 == r && ps_pre[idx].1 == c) by {
                                assert(ps@[idx] == ps_pre[idx]);
                            }
                            assert(untouched(ps_pre, r, c));
                            assert(!(ps@[placed - 1].0 == r && ps@[placed - 1].1 == c));
                            assert(self.cell_at(r, c) == pre.cell_at(r, c));
                        }
                    }
                },
            }
        }
        Some(ps)
    }
}

/// What one `set_cell` write does to the grid view: the wrapped target cell
/// takes the new value, everything else is unchanged, and each kind count
/// moves by the departing and arriving contributions.
proof fn lemma_set_cell_post(
    pre: Grid,
    post: Grid,
    cell: (usize, usize),
    r: usize,
    c: usize,
    new_state: Cell,
)
    requires
        pre.wf(),
        r == wrap(cell.0 as int, pre.rows()),
        c == wrap(cell.1 as int, pre.cols()),
        post.rows() == pre.rows(),
        post.cols() == pre.cols(),
        post.cells() == pre.cells().update(r as int, pre.cells()[r as int].update(c as int,
            new_state)),
    ensures
        post.wf(),
        post.cells() == pre.cell_write(cell.0 as int, cell.1 as int, new_state),
        post.cell_at(cell.0 as int, cell.1 as int) == new_state,
        forall|rr: int, cc: int|
            !(wrap(rr, pre.rows()) == wrap(cell.0 as int, pre.rows()) && wrap(cc, pre.cols())
                == wrap(cell.1 as int, pre.cols())) ==> #[trigger] post.cell_at(rr, cc)
                == pre.cell_at(rr, cc),
        forall|k: Cell|
            #[trigger] count_in_grid(post.cells(), k) == count_in_grid(pre.cells(), k) - (
            if pre.cell_at(cell.0 as int, cell.1 as int) == k {
                1int
            } else {
                0int
            }) + (if new_state == k {
                1int
            } else {
                0int
            }),
{
    assert forall|k: Cell|
        #[trigger] count_in_grid(post.cells(), k) == count_in_grid(pre.cells(), k) - (
        if pre.cell_at(cell.0 as int, cell.1 as int) == k {
            1int
        } else {
            0int
        }) + (if new_state == k {
            1int
        } else {
            0int
        }) by {
        lemma_count_in_row_update(pre.cells()[r as int], c as int, new_state, k);
        lemma_count_in_grid_update(
            pre.cells(),
            r as int,
            pre.cells()[r as int].update(c as int, new_state),
            k,
        );
    }
}

} // verus!
