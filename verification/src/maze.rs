//! The procedural maze generator.
//!
//! A perfect maze is carved over an odd-sized grid by randomized
//! depth-first backtracking: logical cells live at odd coordinate pairs,
//! and carving a passage opens the midpoint cell between two logical
//! cells. The generator maintains, and its contract states, what this
//! construction guarantees: every floor cell sits at a logical or midpoint
//! position, every open midpoint joins two open logical cells, every floor
//! cell is reachable from the start cell, and the floor adjacency graph has
//! exactly one edge fewer than it has floor cells — with connectedness,
//! a tree, so the maze is perfect. The randomness is drawn from an
//! explicitly passed deterministic source, and the contract pins the
//! produced grid as a function of the request and the seed alone, so
//! generation is reproducible.

use vstd::prelude::*;

use crate::color::Rgba;
use crate::compositor::{Frame, lemma_rowmajor_in_range, lemma_rowmajor_injective};
use crate::config::ConfigError;
use crate::rng::{spec_lcg_draw, spec_lcg_next, Prng};
use vstd::arithmetic::div_mod::lemma_fundamental_div_mod_converse;
use vstd::arithmetic::mul::{lemma_mul_nonnegative, lemma_mul_upper_bound};

verus! {

/// Largest maze side length the generator works on.
pub const MAZE_MAX: usize = 0x1000;

/// One cell of the logical maze grid.
#[derive(Clone, Copy, PartialEq, Eq, Structural, Debug)]
pub enum Cell {
    Wall,
    Floor,
}

/// An odd-by-odd grid of wall and floor cells in row-major order.
#[derive(Debug)]
pub struct MazeGrid {
    pub size: usize,
    pub cells: Vec<Cell>,
}

impl MazeGrid {
    /// Side within [`MAZE_MAX`] and exactly one cell per grid position.
    pub open spec fn wf(self) -> bool {
        self.size <= MAZE_MAX && self.cells@.len() == self.size * self.size
    }

    /// Reads the cell at `(x, y)`.
    pub fn get_cell(&self, x: usize, y: usize) -> (c: Cell)
        requires
            self.wf(),
            x < self.size,
            y < self.size,
        ensures
            c == cell_at(self.cells@, self.size as int, x as int, y as int),
    {
        grid_get(&self.cells, self.size, x, y)
    }
}

/// The cell at `(x, y)` of a row-major grid of side `n`.
pub open spec fn cell_at(g: Seq<Cell>, n: int, x: int, y: int) -> Cell {
    g[y * n + x]
}

/// The cell at `(x, y)` is floor.
pub open spec fn is_floor(g: Seq<Cell>, n: int, x: int, y: int) -> bool {
    cell_at(g, n, x, y) == Cell::Floor
}

/// `(x, y)` lies on the grid.
pub open spec fn in_grid(n: int, x: int, y: int) -> bool {
    0 <= x < n && 0 <= y < n
}

/// `(x, y)` is a logical maze cell: an odd coordinate pair strictly inside
/// the border.
pub open spec fn is_logical_pos(n: int, x: int, y: int) -> bool {
    1 <= x <= n - 2 && 1 <= y <= n - 2 && x % 2 == 1 && y % 2 == 1
}

/// `(x, y)` is a midpoint position: strictly inside the border with exactly
/// one odd coordinate, the possible site of a carved passage between the
/// two logical cells on its odd axis.
pub open spec fn is_mid_pos(n: int, x: int, y: int) -> bool {
    1 <= x <= n - 2 && 1 <= y <= n - 2 && x % 2 + y % 2 == 1
}

/// Both logical cells joined by the midpoint at `(x, y)` are floor.
pub open spec fn mid_endpoints_floor(g: Seq<Cell>, n: int, x: int, y: int) -> bool {
    if x % 2 == 0 {
        is_floor(g, n, x - 1, y) && is_floor(g, n, x + 1, y)
    } else {
        is_floor(g, n, x, y - 1) && is_floor(g, n, x, y + 1)
    }
}

/// The shape the carving construction guarantees: floor only at logical or
/// midpoint positions, and every open midpoint joins two open logical
/// cells. In particular the border and every even-even position stay wall.
pub open spec fn maze_structure(g: Seq<Cell>, n: int) -> bool {
    g.len() == n * n
    && (forall|x: int, y: int|
        in_grid(n, x, y) && #[trigger] is_floor(g, n, x, y)
            ==> is_logical_pos(n, x, y) || is_mid_pos(n, x, y))
    && (forall|x: int, y: int|
        in_grid(n, x, y) && #[trigger] is_floor(g, n, x, y) && is_mid_pos(n, x, y)
            ==> mid_endpoints_floor(g, n, x, y))
}

/// The two positions are one step apart on the grid.
pub open spec fn step_adjacent(x1: int, y1: int, x2: int, y2: int) -> bool {
    (x1 == x2 && (y2 == y1 + 1 || y2 == y1 - 1))
        || (y1 == y2 && (x2 == x1 + 1 || x2 == x1 - 1))
}

/// `p` is a walk over floor cells: non-empty, every position on the grid
/// and open, consecutive positions one step apart.
pub open spec fn path_ok(g: Seq<Cell>, n: int, p: Seq<(int, int)>) -> bool {
    p.len() >= 1
    && (forall|i: int| 0 <= i < p.len()
        ==> in_grid(n, (#[trigger] p[i]).0, p[i].1) && is_floor(g, n, p[i].0, p[i].1))
    && (forall|i: int| 0 <= i < p.len() - 1
        ==> step_adjacent((#[trigger] p[i]).0, p[i].1, p[i + 1].0, p[i + 1].1))
}

/// A walk over floor cells leads from `(sx, sy)` to `(x, y)`.
pub open spec fn reaches(g: Seq<Cell>, n: int, sx: int, sy: int, x: int, y: int) -> bool {
    exists|p: Seq<(int, int)>|
        #[trigger] path_ok(g, n, p) && p[0] == (sx, sy) && p[p.len() - 1] == (x, y)
}

/// Every floor cell of the grid can be walked to from `(sx, sy)`.
pub open spec fn all_floor_reachable(g: Seq<Cell>, n: int, sx: int, sy: int) -> bool {
    forall|x: int, y: int|
        in_grid(n, x, y) && #[trigger] is_floor(g, n, x, y) ==> reaches(g, n, sx, sy, x, y)
}

/// A floor cell reaches itself, by the one-position walk.
proof fn lemma_reaches_self(g: Seq<Cell>, n: int, x: int, y: int)
    requires
        in_grid(n, x, y),
        is_floor(g, n, x, y),
    ensures
        reaches(g, n, x, y, x, y),
{
    let p: Seq<(int, int)> = seq![(x, y)];
    assert(path_ok(g, n, p));
}

/// A walk can be extended by one step onto an adjacent floor cell.
proof fn lemma_reaches_step(g: Seq<Cell>, n: int, sx: int, sy: int,
    ax: int, ay: int, bx: int, by: int)
    requires
        reaches(g, n, sx, sy, ax, ay),
        step_adjacent(ax, ay, bx, by),
        in_grid(n, bx, by),
        is_floor(g, n, bx, by),
    ensures
        reaches(g, n, sx, sy, bx, by),
{
    let p = choose|p: Seq<(int, int)>|
        #[trigger] path_ok(g, n, p) && p[0] == (sx, sy) && p[p.len() - 1] == (ax, ay);
    let q = p.push((bx, by));
    assert forall|i: int| 0 <= i < q.len()
        implies in_grid(n, (#[trigger] q[i]).0, q[i].1) && is_floor(g, n, q[i].0, q[i].1) by {
        if i < p.len() {
            assert(q[i] == p[i]);
        }
    }
    assert forall|i: int| 0 <= i < q.len() - 1
        implies step_adjacent((#[trigger] q[i]).0, q[i].1, q[i + 1].0, q[i + 1].1) by {
        if i < p.len() - 1 {
            assert(q[i] == p[i] && q[i + 1] == p[i + 1]);
        } else {
            assert(q[i] == p[p.len() - 1] && q[i + 1] == (bx, by));
        }
    }
    assert(path_ok(g, n, q) && q[0] == (sx, sy) && q[q.len() - 1] == (bx, by));
}

/// Every floor cell of `g` is still floor in `g2`, and the grids agree in
/// length: carving only opens cells, never closes them.
pub open spec fn floors_grow(g: Seq<Cell>, g2: Seq<Cell>, n: int) -> bool {
    g.len() == g2.len()
    && forall|x: int, y: int|
        in_grid(n, x, y) && #[trigger] is_floor(g, n, x, y) ==> is_floor(g2, n, x, y)
}

/// Walks survive carving: a walk over the floor of `g` is a walk over the
/// floor of any grid that keeps those cells open.
proof fn lemma_reaches_monotone(g: Seq<Cell>, g2: Seq<Cell>, n: int,
    sx: int, sy: int, x: int, y: int)
    requires
        reaches(g, n, sx, sy, x, y),
        floors_grow(g, g2, n),
    ensures
        reaches(g2, n, sx, sy, x, y),
{
    let p = choose|p: Seq<(int, int)>|
        #[trigger] path_ok(g, n, p) && p[0] == (sx, sy) && p[p.len() - 1] == (x, y);
    assert forall|i: int| 0 <= i < p.len()
        implies in_grid(n, (#[trigger] p[i]).0, p[i].1) && is_floor(g2, n, p[i].0, p[i].1) by {
        assert(is_floor(g, n, p[i].0, p[i].1));
    }
    assert(path_ok(g2, n, p));
}

/// Which floor cells a count covers.
pub enum PosClass {
    /// Floor cells at logical positions.
    Logical,
    /// Floor cells at midpoint positions.
    Mid,
    /// Every floor cell.
    Any,
}

/// Whether `(x, y)` belongs to the class.
pub open spec fn pos_matches(n: int, c: PosClass, x: int, y: int) -> bool {
    match c {
        PosClass::Logical => is_logical_pos(n, x, y),
        PosClass::Mid => is_mid_pos(n, x, y),
        PosClass::Any => true,
    }
}

/// How many of the first `k` cells (row-major) are floor at a position of
/// class `c`.
pub open spec fn floor_count_upto(g: Seq<Cell>, n: int, c: PosClass, k: int) -> nat
    decreases k,
{
    if k <= 0 {
        0
    } else {
        floor_count_upto(g, n, c, k - 1)
            + if g[k - 1] == Cell::Floor && pos_matches(n, c, (k - 1) % n, (k - 1) / n) {
                1nat
            } else {
                0nat
            }
    }
}

/// How many floor cells of class `c` the whole grid holds.
pub open spec fn floor_count(g: Seq<Cell>, n: int, c: PosClass) -> nat {
    floor_count_upto(g, n, c, n * n)
}

/// A count over a prefix never exceeds the prefix length.
proof fn lemma_floor_count_le(g: Seq<Cell>, n: int, c: PosClass, k: int)
    requires
        k >= 0,
    ensures
        floor_count_upto(g, n, c, k) <= k,
    decreases k,
{
    if k > 0 {
        lemma_floor_count_le(g, n, c, k - 1);
    }
}

/// Opening one wall cell raises a count by one exactly when the opened
/// position lies in the counted prefix and matches the class.
proof fn lemma_floor_count_update(g: Seq<Cell>, n: int, c: PosClass, k: int, j: int)
    requires
        0 <= j < g.len(),
        g[j] != Cell::Floor,
        0 <= k <= g.len(),
        n > 0,
    ensures
        floor_count_upto(g.update(j, Cell::Floor), n, c, k) == floor_count_upto(g, n, c, k)
            + if j < k && pos_matches(n, c, j % n, j / n) { 1nat } else { 0nat },
    decreases k,
{
    if k > 0 {
        lemma_floor_count_update(g, n, c, k - 1, j);
    }
}

/// Writing floor over any cell never lowers a count, and raises it exactly
/// when the cell was walled, lies in the counted prefix and matches the
/// class.
proof fn lemma_floor_count_set_floor(g: Seq<Cell>, n: int, c: PosClass, k: int, j: int)
    requires
        0 <= j < g.len(),
        0 <= k <= g.len(),
        n > 0,
    ensures
        floor_count_upto(g.update(j, Cell::Floor), n, c, k) == floor_count_upto(g, n, c, k)
            + if j < k && g[j] != Cell::Floor && pos_matches(n, c, j % n, j / n) {
                1nat
            } else {
                0nat
            },
    decreases k,
{
    if k > 0 {
        lemma_floor_count_set_floor(g, n, c, k - 1, j);
    }
}

/// How many edges of the floor adjacency graph start at flat index `i`:
/// one for a floor neighbor directly to the right, one for a floor
/// neighbor directly below. Every unordered adjacent floor pair is counted
/// exactly once, at its left or upper end.
pub open spec fn edges_at(g: Seq<Cell>, n: int, i: int) -> nat {
    let x = i % n;
    let y = i / n;
    (if is_floor(g, n, x, y) && x + 1 < n && is_floor(g, n, x + 1, y) { 1nat } else { 0nat })
        + (if is_floor(g, n, x, y) && y + 1 < n && is_floor(g, n, x, y + 1) { 1nat } else { 0nat })
}

/// The edges of the floor adjacency graph among the first `k` cells.
pub open spec fn edge_count_upto(g: Seq<Cell>, n: int, k: int) -> nat
    decreases k,
{
    if k <= 0 {
        0
    } else {
        edge_count_upto(g, n, k - 1) + edges_at(g, n, k - 1)
    }
}

/// How many edges the floor adjacency graph of the grid has: unordered
/// pairs of floor cells one step apart.
pub open spec fn edge_count(g: Seq<Cell>, n: int) -> nat {
    edge_count_upto(g, n, n * n)
}

/// One where the position is on the grid and open, else zero.
pub open spec fn floor_neighbor(g: Seq<Cell>, n: int, x: int, y: int) -> nat {
    if in_grid(n, x, y) && is_floor(g, n, x, y) { 1nat } else { 0nat }
}

/// How many of the four neighbors of `(x, y)` are open.
pub open spec fn floor_neighbors(g: Seq<Cell>, n: int, x: int, y: int) -> nat {
    floor_neighbor(g, n, x - 1, y) + floor_neighbor(g, n, x + 1, y)
        + floor_neighbor(g, n, x, y - 1) + floor_neighbor(g, n, x, y + 1)
}

/// A grid with no floor cells has no edges.
proof fn lemma_edge_count_all_wall(g: Seq<Cell>, n: int, k: int)
    requires
        n >= 1,
        k <= g.len(),
        forall|j: int| 0 <= j < g.len() ==> g[j] != Cell::Floor,
    ensures
        edge_count_upto(g, n, k) == 0,
    decreases k,
{
    if k > 0 {
        lemma_edge_count_all_wall(g, n, k - 1);
        let i = k - 1;
        vstd::arithmetic::div_mod::lemma_mod_bound(i, n);
        vstd::arithmetic::div_mod::lemma_fundamental_div_mod(i, n);
        assert((i / n) * n + (i % n) == i) by {
            assert(i == n * (i / n) + i % n);
            assert(n * (i / n) == (i / n) * n) by (nonlinear_arith);
        }
        assert(edges_at(g, n, i) == 0);
    }
}

/// When two grids differ only at flat index `j`, their edge sums can differ
/// only through the summands at `j` and at `j`'s left and upper neighbors.
proof fn lemma_edge_count_diff(g: Seq<Cell>, g2: Seq<Cell>, n: int, k: int, j: int)
    requires
        n >= 2,
        forall|i: int|
            0 <= i < k && i != j && i != j - 1 && i != j - n
                ==> #[trigger] edges_at(g2, n, i) == edges_at(g, n, i),
    ensures
        edge_count_upto(g2, n, k) as int == edge_count_upto(g, n, k) as int
            + (if 0 <= j < k {
                edges_at(g2, n, j) as int - edges_at(g, n, j) as int
            } else { 0int })
            + (if 0 <= j - 1 < k {
                edges_at(g2, n, j - 1) as int - edges_at(g, n, j - 1) as int
            } else { 0int })
            + (if 0 <= j - n < k {
                edges_at(g2, n, j - n) as int - edges_at(g, n, j - n) as int
            } else { 0int }),
    decreases k,
{
    if k > 0 {
        lemma_edge_count_diff(g, g2, n, k - 1, j);
    }
}

/// Opening one walled cell adds exactly as many edges as the cell has open
/// neighbors.
proof fn lemma_edge_count_open(g: Seq<Cell>, n: int, x: int, y: int)
    requires
        n >= 2,
        g.len() == n * n,
        in_grid(n, x, y),
        !is_floor(g, n, x, y),
    ensures
        edge_count(g.update(y * n + x, Cell::Floor), n)
            == edge_count(g, n) + floor_neighbors(g, n, x, y),
{
    let j = y * n + x;
    let g2 = g.update(j, Cell::Floor);
    lemma_rowmajor_in_range(n, n, x, y);
    lemma_fundamental_div_mod_converse(j, n, y, x);
    assert forall|i: int|
        0 <= i < n * n && i != j && i != j - 1 && i != j - n
        implies #[trigger] edges_at(g2, n, i) == edges_at(g, n, i) by {
        let xi = i % n;
        let yi = i / n;
        vstd::arithmetic::div_mod::lemma_mod_bound(i, n);
        vstd::arithmetic::div_mod::lemma_fundamental_div_mod(i, n);
        assert(yi < n) by {
            vstd::arithmetic::div_mod::lemma_multiply_divide_lt(i, n, n);
        }
        assert(yi * n + xi == i) by {
            assert(i == n * yi + xi);
            assert(n * yi == yi * n) by (nonlinear_arith);
        }
        lemma_rowmajor_in_range(n, n, xi, yi);
        if xi + 1 < n {
            lemma_rowmajor_in_range(n, n, xi + 1, yi);
            assert(yi * n + (xi + 1) == i + 1);
        }
        if yi + 1 < n {
            lemma_rowmajor_in_range(n, n, xi, yi + 1);
            assert((yi + 1) * n + xi == i + n) by {
                assert((yi + 1) * n == yi * n + n) by (nonlinear_arith);
            }
        }
    }
    lemma_edge_count_diff(g, g2, n, n * n, j);
    // The opened cell's own summand gains its right and lower open
    // neighbors; the summands of its left and upper neighbors each gain the
    // one new edge into the opened cell when that neighbor is open.
    assert(edges_at(g, n, j) == 0);
    assert(edges_at(g2, n, j) as int
        == floor_neighbor(g, n, x + 1, y) + floor_neighbor(g, n, x, y + 1)) by {
        if x + 1 < n {
            lemma_rowmajor_in_range(n, n, x + 1, y);
            assert(y * n + (x + 1) == j + 1);
        }
        if y + 1 < n {
            lemma_rowmajor_in_range(n, n, x, y + 1);
            assert((y + 1) * n + x == j + n) by {
                assert((y + 1) * n == y * n + n) by (nonlinear_arith);
            }
        }
    }
    if x >= 1 {
        lemma_rowmajor_in_range(n, n, x - 1, y);
        lemma_fundamental_div_mod_converse(j - 1, n, y, x - 1);
        assert(edges_at(g2, n, j - 1) as int - edges_at(g, n, j - 1) as int
            == floor_neighbor(g, n, x - 1, y)) by {
            assert(y * n + (x - 1) == j - 1);
            if y + 1 < n {
                lemma_rowmajor_in_range(n, n, x - 1, y + 1);
                assert((y + 1) * n + (x - 1) == j - 1 + n) by {
                    assert((y + 1) * n == y * n + n) by (nonlinear_arith);
                }
            }
        }
    } else {
        assert(floor_neighbor(g, n, x - 1, y) == 0);
        if 0 <= j - 1 {
            assert(y >= 1) by {
                if y == 0 {
                    assert(y * n == 0) by (nonlinear_arith) requires y == 0;
                }
            }
            assert(j - 1 == (y - 1) * n + (n - 1)) by {
                assert((y - 1) * n == y * n - n) by (nonlinear_arith);
            }
            lemma_fundamental_div_mod_converse(j - 1, n, y - 1, n - 1);
            assert(edges_at(g2, n, j - 1) == edges_at(g, n, j - 1)) by {
                lemma_rowmajor_in_range(n, n, n - 1, y - 1);
                assert((y - 1) * n + (n - 1) == j - 1);
                if y < n {
                    lemma_rowmajor_in_range(n, n, n - 1, y);
                    assert(((y - 1) + 1) * n + (n - 1) == j - 1 + n) by {
                        assert(((y - 1) + 1) * n == (y - 1) * n + n) by (nonlinear_arith);
                    }
                }
            }
        }
    }
    if y >= 1 {
        lemma_rowmajor_in_range(n, n, x, y - 1);
        assert((y - 1) * n + x == j - n) by {
            assert((y - 1) * n == y * n - n) by (nonlinear_arith);
        }
        lemma_fundamental_div_mod_converse(j - n, n, y - 1, x);
        assert(edges_at(g2, n, j - n) as int - edges_at(g, n, j - n) as int
            == floor_neighbor(g, n, x, y - 1)) by {
            assert((y - 1) * n + x == j - n);
            if x + 1 < n {
                lemma_rowmajor_in_range(n, n, x + 1, y - 1);
                assert((y - 1) * n + (x + 1) == j - n + 1);
            }
            assert(((y - 1) + 1) * n + x == j) by {
                assert(((y - 1) + 1) * n == (y - 1) * n + n) by (nonlinear_arith);
            }
        }
    } else {
        assert(floor_neighbor(g, n, x, y - 1) == 0);
        assert(j - n < 0) by {
            assert(y * n == 0) by (nonlinear_arith) requires y == 0;
        }
    }
}

/// At carve time the midpoint's only open neighbor is the stack top: its
/// other logical end is the still-walled chosen neighbor, and the cells on
/// its even axis have two even coordinates, which no open cell can have.
proof fn lemma_new_mid_neighbors(g: Seq<Cell>, n: int,
    cx: int, cy: int, nx: int, ny: int, mx: int, my: int)
    requires
        n >= 3,
        g.len() == n * n,
        maze_structure(g, n),
        is_logical_pos(n, cx, cy),
        is_floor(g, n, cx, cy),
        is_logical_pos(n, nx, ny),
        !is_floor(g, n, nx, ny),
        is_mid_pos(n, mx, my),
        mid_joins(mx, my, cx, cy, nx, ny),
    ensures
        floor_neighbors(g, n, mx, my) == 1,
{
    if mx % 2 == 0 {
        assert(floor_neighbor(g, n, mx, my - 1) == 0) by {
            if in_grid(n, mx, my - 1) && is_floor(g, n, mx, my - 1) {
                assert(is_logical_pos(n, mx, my - 1) || is_mid_pos(n, mx, my - 1));
            }
        }
        assert(floor_neighbor(g, n, mx, my + 1) == 0) by {
            if in_grid(n, mx, my + 1) && is_floor(g, n, mx, my + 1) {
                assert(is_logical_pos(n, mx, my + 1) || is_mid_pos(n, mx, my + 1));
            }
        }
    } else {
        assert(floor_neighbor(g, n, mx - 1, my) == 0) by {
            if in_grid(n, mx - 1, my) && is_floor(g, n, mx - 1, my) {
                assert(is_logical_pos(n, mx - 1, my) || is_mid_pos(n, mx - 1, my));
            }
        }
        assert(floor_neighbor(g, n, mx + 1, my) == 0) by {
            if in_grid(n, mx + 1, my) && is_floor(g, n, mx + 1, my) {
                assert(is_logical_pos(n, mx + 1, my) || is_mid_pos(n, mx + 1, my));
            }
        }
    }
}

/// A neighbor of the chosen cell other than the freshly opened midpoint is
/// closed: it could only be an open midpoint, whose second end would
/// already have opened the chosen cell.
proof fn lemma_nb_side_closed(g0: Seq<Cell>, g1: Seq<Cell>, n: int,
    nx: int, ny: int, qx: int, qy: int, mx: int, my: int)
    requires
        n >= 3,
        g0.len() == n * n,
        maze_structure(g0, n),
        is_logical_pos(n, nx, ny),
        !is_floor(g0, n, nx, ny),
        in_grid(n, mx, my),
        step_adjacent(nx, ny, qx, qy),
        !(qx == mx && qy == my),
        g1 == g0.update(my * n + mx, Cell::Floor),
    ensures
        floor_neighbor(g1, n, qx, qy) == 0,
{
    if in_grid(n, qx, qy) && is_floor(g1, n, qx, qy) {
        lemma_rowmajor_in_range(n, n, qx, qy);
        lemma_rowmajor_in_range(n, n, mx, my);
        if qy * n + qx == my * n + mx {
            lemma_rowmajor_injective(n, qx, qy, mx, my);
        }
        assert(is_floor(g0, n, qx, qy));
        assert(is_logical_pos(n, qx, qy) || is_mid_pos(n, qx, qy));
        assert(is_mid_pos(n, qx, qy));
        assert(mid_endpoints_floor(g0, n, qx, qy));
        assert(false);
    }
}

/// Once the midpoint has opened, it is the chosen cell's only open
/// neighbor.
proof fn lemma_new_cell_neighbors(g0: Seq<Cell>, g1: Seq<Cell>, n: int,
    nx: int, ny: int, mx: int, my: int)
    requires
        n >= 3,
        g0.len() == n * n,
        maze_structure(g0, n),
        is_logical_pos(n, nx, ny),
        !is_floor(g0, n, nx, ny),
        is_mid_pos(n, mx, my),
        step_adjacent(mx, my, nx, ny),
        g1 == g0.update(my * n + mx, Cell::Floor),
    ensures
        floor_neighbors(g1, n, nx, ny) == 1,
{
    lemma_rowmajor_in_range(n, n, mx, my);
    assert(is_floor(g1, n, mx, my));
    if !(nx - 1 == mx && ny == my) {
        lemma_nb_side_closed(g0, g1, n, nx, ny, nx - 1, ny, mx, my);
    }
    if !(nx + 1 == mx && ny == my) {
        lemma_nb_side_closed(g0, g1, n, nx, ny, nx + 1, ny, mx, my);
    }
    if !(nx == mx && ny - 1 == my) {
        lemma_nb_side_closed(g0, g1, n, nx, ny, nx, ny - 1, mx, my);
    }
    if !(nx == mx && ny + 1 == my) {
        lemma_nb_side_closed(g0, g1, n, nx, ny, nx, ny + 1, mx, my);
    }
}

/// Every open cell sits at exactly one of a logical or a midpoint
/// position, so the total floor count is the sum of the two class counts.
proof fn lemma_floor_count_partition(g: Seq<Cell>, n: int, k: int)
    requires
        n >= 1,
        g.len() == n * n,
        maze_structure(g, n),
        0 <= k <= n * n,
    ensures
        floor_count_upto(g, n, PosClass::Any, k)
            == floor_count_upto(g, n, PosClass::Logical, k)
                + floor_count_upto(g, n, PosClass::Mid, k),
    decreases k,
{
    if k > 0 {
        lemma_floor_count_partition(g, n, k - 1);
        let i = k - 1;
        vstd::arithmetic::div_mod::lemma_mod_bound(i, n);
        vstd::arithmetic::div_mod::lemma_fundamental_div_mod(i, n);
        let x = i % n;
        let y = i / n;
        assert(y * n + x == i) by {
            assert(i == n * y + x);
            assert(n * y == y * n) by (nonlinear_arith);
        }
        assert(y < n) by {
            assert(n * n == n * n);
            vstd::arithmetic::div_mod::lemma_multiply_divide_lt(i, n, n);
        }
        if g[i] == Cell::Floor {
            assert(is_floor(g, n, x, y));
            assert(is_logical_pos(n, x, y) || is_mid_pos(n, x, y));
        }
    }
}

/// Grid helpers shared by generation and expansion: row-major access.
fn grid_get(cells: &Vec<Cell>, n: usize, x: usize, y: usize) -> (c: Cell)
    requires
        cells@.len() == n * n,
        n <= MAZE_MAX,
        x < n,
        y < n,
    ensures
        c == cell_at(cells@, n as int, x as int, y as int),
{
    proof {
        lemma_rowmajor_in_range(n as int, n as int, x as int, y as int);
        lemma_mul_upper_bound(n as int, MAZE_MAX as int, n as int, MAZE_MAX as int);
    }
    cells[y * n + x]
}

/// Writes one cell, leaving every other cell unchanged.
fn grid_set(cells: &mut Vec<Cell>, n: usize, x: usize, y: usize, c: Cell)
    requires
        old(cells)@.len() == n * n,
        n <= MAZE_MAX,
        x < n,
        y < n,
    ensures
        final(cells)@ == old(cells)@.update(y * n + x, c),
{
    proof {
        lemma_rowmajor_in_range(n as int, n as int, x as int, y as int);
        lemma_mul_upper_bound(n as int, MAZE_MAX as int, n as int, MAZE_MAX as int);
    }
    let i = y * n + x;
    cells.set(i, c);
}

/// Whether a maze request is valid: an odd side of at least 3 and a start
/// cell on odd coordinates strictly inside the border.
pub open spec fn maze_params_ok(size: int, sx: int, sy: int) -> bool {
    size % 2 == 1 && size >= 3
        && 1 <= sx <= size - 2 && 1 <= sy <= size - 2
        && sx % 2 == 1 && sy % 2 == 1
}

/// The error an invalid maze request is rejected with.
pub open spec fn spec_maze_error(size: int, sx: int, sy: int) -> ConfigError {
    if size % 2 == 0 {
        ConfigError::MazeSizeNotOdd
    } else if size < 3 {
        ConfigError::MazeSizeTooSmall
    } else if !(1 <= sx <= size - 2 && 1 <= sy <= size - 2) {
        ConfigError::MazeStartOutOfRange
    } else {
        ConfigError::MazeStartNotOdd
    }
}

/// The carvable neighbors of the logical cell `(cx, cy)`, in the fixed
/// order the generator examines them: up, down, left, right; a neighbor
/// appears when it lies in the interior and is still walled.
pub open spec fn spec_candidates(g: Seq<Cell>, n: int, cx: int, cy: int) -> Seq<(int, int)> {
    (if cy >= 3 && !is_floor(g, n, cx, cy - 2) {
        seq![(cx, cy - 2)]
    } else {
        Seq::empty()
    }) + (if cy + 4 <= n && !is_floor(g, n, cx, cy + 2) {
        seq![(cx, cy + 2)]
    } else {
        Seq::empty()
    }) + (if cx >= 3 && !is_floor(g, n, cx - 2, cy) {
        seq![(cx - 2, cy)]
    } else {
        Seq::empty()
    }) + (if cx + 4 <= n && !is_floor(g, n, cx + 2, cy) {
        seq![(cx + 2, cy)]
    } else {
        Seq::empty()
    })
}

/// Every listed neighbor of a logical cell is itself a still-walled
/// logical cell two steps away on one axis.
proof fn lemma_candidates_props(g: Seq<Cell>, n: int, cx: int, cy: int, k: int)
    requires
        n >= 3,
        is_logical_pos(n, cx, cy),
        0 <= k < spec_candidates(g, n, cx, cy).len(),
    ensures
        ({
            let p = spec_candidates(g, n, cx, cy)[k];
            is_logical_pos(n, p.0, p.1) && !is_floor(g, n, p.0, p.1)
                && ((p.0 == cx && (p.1 == cy + 2 || p.1 == cy - 2))
                    || (p.1 == cy && (p.0 == cx + 2 || p.0 == cx - 2)))
        }),
{
    let s1: Seq<(int, int)> = if cy >= 3 && !is_floor(g, n, cx, cy - 2) {
        seq![(cx, cy - 2)]
    } else {
        Seq::empty()
    };
    let s2: Seq<(int, int)> = if cy + 4 <= n && !is_floor(g, n, cx, cy + 2) {
        seq![(cx, cy + 2)]
    } else {
        Seq::empty()
    };
    let s3: Seq<(int, int)> = if cx >= 3 && !is_floor(g, n, cx - 2, cy) {
        seq![(cx - 2, cy)]
    } else {
        Seq::empty()
    };
    let s4: Seq<(int, int)> = if cx + 4 <= n && !is_floor(g, n, cx + 2, cy) {
        seq![(cx + 2, cy)]
    } else {
        Seq::empty()
    };
    let s = spec_candidates(g, n, cx, cy);
    assert(s == s1 + s2 + s3 + s4);
    if k < s1.len() {
        assert(s[k] == s1[0]);
    } else if k < s1.len() + s2.len() {
        assert(s[k] == s2[0]);
    } else if k < s1.len() + s2.len() + s3.len() {
        assert(s[k] == s3[0]);
    } else {
        assert(s[k] == s4[k - s1.len() - s2.len() - s3.len()]);
    }
}

/// `(nx, ny)` is a carvable neighbor of the logical cell `(cx, cy)`: a
/// still-walled logical cell two steps away on one axis.
spec fn is_candidate(g: Seq<Cell>, n: int, cx: int, cy: int, nx: int, ny: int) -> bool {
    is_logical_pos(n, nx, ny) && !is_floor(g, n, nx, ny)
        && ((nx == cx && (ny == cy + 2 || ny == cy - 2))
            || (ny == cy && (nx == cx + 2 || nx == cx - 2)))
}

/// The integer model of an executable coordinate list.
pub open spec fn coords_model(s: Seq<(usize, usize)>) -> Seq<(int, int)> {
    s.map_values(|p: (usize, usize)| (p.0 as int, p.1 as int))
}

/// Every position on the walk stack is a logical cell.
pub open spec fn stack_positions_logical(stack: Seq<(int, int)>, n: int) -> bool {
    forall|i: int| 0 <= i < stack.len()
        ==> is_logical_pos(n, (#[trigger] stack[i]).0, stack[i].1)
}

/// The grid the carving walk leaves behind, from a given grid, stack and
/// random state: while the stack is non-empty, either backtrack (no
/// carvable neighbor of the top) or draw a neighbor, open it together with
/// the midpoint, and push it. This is the generator's walk, written as a
/// function, so that the produced grid is pinned by the inputs alone.
pub open spec fn spec_carve_from(g: Seq<Cell>, stack: Seq<(int, int)>, s: u64, n: int)
    -> Seq<Cell>
    decreases n * n - floor_count(g, n, PosClass::Any), stack.len()
        when n >= 3 && g.len() == n * n && stack_positions_logical(stack, n)
        via spec_carve_from_decreases
{
    if stack.len() == 0 {
        g
    } else {
        let top = stack[stack.len() - 1];
        let cands = spec_candidates(g, n, top.0, top.1);
        if cands.len() == 0 {
            spec_carve_from(g, stack.drop_last(), s, n)
        } else {
            let pick = cands[spec_lcg_draw(s, cands.len() as int)];
            let mx = if pick.0 > top.0 { top.0 + 1 }
                else if pick.0 < top.0 { top.0 - 1 }
                else { top.0 };
            let my = if pick.1 > top.1 { top.1 + 1 }
                else if pick.1 < top.1 { top.1 - 1 }
                else { top.1 };
            let g2 = g.update(my * n + mx, Cell::Floor).update(pick.1 * n + pick.0, Cell::Floor);
            spec_carve_from(g2, stack.push(pick), spec_lcg_next(s), n)
        }
    }
}

#[via_fn]
proof fn spec_carve_from_decreases(g: Seq<Cell>, stack: Seq<(int, int)>, s: u64, n: int) {
    lemma_floor_count_le(g, n, PosClass::Any, n * n);
    if stack.len() > 0 {
        let top = stack[stack.len() - 1];
        let cands = spec_candidates(g, n, top.0, top.1);
        if cands.len() > 0 {
            let k = spec_lcg_draw(s, cands.len() as int);
            assert(0 <= k < cands.len()) by {
                vstd::arithmetic::div_mod::lemma_div_pos_is_pos(
                    spec_lcg_next(s) as int, 0x2_0000_0000);
                vstd::arithmetic::div_mod::lemma_mod_bound(
                    spec_lcg_next(s) as int / 0x2_0000_0000, cands.len() as int);
            }
            lemma_candidates_props(g, n, top.0, top.1, k);
            let pick = cands[k];
            let mx = if pick.0 > top.0 { top.0 + 1 }
                else if pick.0 < top.0 { top.0 - 1 }
                else { top.0 };
            let my = if pick.1 > top.1 { top.1 + 1 }
                else if pick.1 < top.1 { top.1 - 1 }
                else { top.1 };
            let m_idx = my * n + mx;
            let b_idx = pick.1 * n + pick.0;
            lemma_rowmajor_in_range(n, n, mx, my);
            lemma_rowmajor_in_range(n, n, pick.0, pick.1);
            assert(b_idx != m_idx) by {
                if b_idx == m_idx {
                    lemma_rowmajor_injective(n, pick.0, pick.1, mx, my);
                }
            }
            let g1 = g.update(m_idx, Cell::Floor);
            let g2 = g1.update(b_idx, Cell::Floor);
            lemma_floor_count_set_floor(g, n, PosClass::Any, n * n, m_idx);
            assert(g1[b_idx] != Cell::Floor);
            lemma_floor_count_set_floor(g1, n, PosClass::Any, n * n, b_idx);
            lemma_floor_count_le(g2, n, PosClass::Any, n * n);
            assert(stack_positions_logical(stack.push(pick), n)) by {
                assert forall|i: int| 0 <= i < stack.push(pick).len()
                    implies is_logical_pos(n,
                        (#[trigger] stack.push(pick)[i]).0, stack.push(pick)[i].1) by {
                    if i < stack.len() {
                        assert(stack.push(pick)[i] == stack[i]);
                    }
                }
            }
        }
    }
}

/// The grid the generator produces for a valid request and seed: the
/// all-wall grid with the start cell opened, carved by the walk from a
/// stack holding just the start.
pub open spec fn spec_generate(size: int, sx: int, sy: int, seed: u64) -> Seq<Cell> {
    let g0 = Seq::new((size * size) as nat,
        |i: int| if i == sy * size + sx { Cell::Floor } else { Cell::Wall });
    spec_carve_from(g0, seq![(sx, sy)], seed, size)
}

/// Maze determinism: the generated grid is a function of the request and
/// the random seed alone, so two generation calls from identical
/// parameters and an identical seed produce identical grids.
pub proof fn lemma_generation_deterministic(g1: Seq<Cell>, g2: Seq<Cell>,
    size: int, sx: int, sy: int, seed: u64)
    requires
        g1 == spec_generate(size, sx, sy, seed),
        g2 == spec_generate(size, sx, sy, seed),
    ensures
        g1 == g2,
{
}

/// A grid with no floor cells has every count at zero.
proof fn lemma_floor_count_all_wall(g: Seq<Cell>, n: int, c: PosClass, k: int)
    requires
        k >= 0,
        forall|j: int| 0 <= j < k ==> g[j] != Cell::Floor,
    ensures
        floor_count_upto(g, n, c, k) == 0,
    decreases k,
{
    if k > 0 {
        lemma_floor_count_all_wall(g, n, c, k - 1);
    }
}

/// The midpoint written between the stack top `(cx, cy)` and its chosen
/// neighbor `(nx, ny)` sits at a midpoint position, one step from each of
/// the two, with exactly those two as its joined logical cells — and it is
/// still walled, because an open midpoint would have opened the neighbor.
proof fn lemma_mid_geometry(g: Seq<Cell>, n: int, cx: int, cy: int, nx: int, ny: int,
    mx: int, my: int)
    requires
        n >= 3,
        maze_structure(g, n),
        is_logical_pos(n, cx, cy),
        is_candidate(g, n, cx, cy, nx, ny),
        mx == (if nx > cx { cx + 1 } else if nx < cx { cx - 1 } else { cx }),
        my == (if ny > cy { cy + 1 } else if ny < cy { cy - 1 } else { cy }),
    ensures
        is_mid_pos(n, mx, my),
        step_adjacent(cx, cy, mx, my),
        step_adjacent(mx, my, nx, ny),
        !is_floor(g, n, mx, my),
        mid_joins(mx, my, cx, cy, nx, ny),
{
    assert(!is_floor(g, n, mx, my)) by {
        if is_floor(g, n, mx, my) {
            assert(mid_endpoints_floor(g, n, mx, my));
        }
    }
}

/// The midpoint's two joined logical cells are exactly `(cx, cy)` and
/// `(nx, ny)`.
spec fn mid_joins(mx: int, my: int, cx: int, cy: int, nx: int, ny: int) -> bool {
    if mx % 2 == 0 {
        my == cy && my == ny
            && ((mx - 1 == cx && mx + 1 == nx) || (mx - 1 == nx && mx + 1 == cx))
    } else {
        mx == cx && mx == nx
            && ((my - 1 == cy && my + 1 == ny) || (my - 1 == ny && my + 1 == cy))
    }
}

/// Opening the midpoint and its neighbor preserves the carved shape: no
/// cell closes, the two new cells are open, every open cell other than the
/// two was open before, and the structure invariant still holds.
proof fn lemma_carve_structure(g0: Seq<Cell>, g2: Seq<Cell>, n: int,
    cx: int, cy: int, nx: int, ny: int, mx: int, my: int)
    requires
        n >= 3,
        g0.len() == n * n,
        maze_structure(g0, n),
        is_logical_pos(n, cx, cy),
        is_floor(g0, n, cx, cy),
        is_logical_pos(n, nx, ny),
        is_mid_pos(n, mx, my),
        mid_joins(mx, my, cx, cy, nx, ny),
        g2 == g0.update(my * n + mx, Cell::Floor).update(ny * n + nx, Cell::Floor),
    ensures
        floors_grow(g0, g2, n),
        is_floor(g2, n, mx, my),
        is_floor(g2, n, nx, ny),
        forall|x: int, y: int|
            in_grid(n, x, y) && #[trigger] is_floor(g2, n, x, y)
                && !(x == mx && y == my) && !(x == nx && y == ny)
                ==> is_floor(g0, n, x, y),
        maze_structure(g2, n),
{
    let m_idx = my * n + mx;
    let b_idx = ny * n + nx;
    lemma_rowmajor_in_range(n, n, mx, my);
    lemma_rowmajor_in_range(n, n, nx, ny);
    assert(b_idx != m_idx) by {
        if b_idx == m_idx {
            lemma_rowmajor_injective(n, nx, ny, mx, my);
        }
    }
    assert forall|x: int, y: int|
        in_grid(n, x, y) && #[trigger] is_floor(g0, n, x, y)
        implies is_floor(g2, n, x, y) by {
        lemma_rowmajor_in_range(n, n, x, y);
    }
    assert(is_floor(g2, n, mx, my));
    assert(is_floor(g2, n, nx, ny));
    assert forall|x: int, y: int|
        in_grid(n, x, y) && #[trigger] is_floor(g2, n, x, y)
            && !(x == mx && y == my) && !(x == nx && y == ny)
        implies is_floor(g0, n, x, y) by {
        lemma_rowmajor_in_range(n, n, x, y);
        if y * n + x == m_idx {
            lemma_rowmajor_injective(n, x, y, mx, my);
        }
        if y * n + x == b_idx {
            lemma_rowmajor_injective(n, x, y, nx, ny);
        }
    }
    assert forall|x: int, y: int|
        in_grid(n, x, y) && #[trigger] is_floor(g2, n, x, y)
        implies is_logical_pos(n, x, y) || is_mid_pos(n, x, y) by {
    }
    assert forall|x: int, y: int|
        in_grid(n, x, y) && #[trigger] is_floor(g2, n, x, y) && is_mid_pos(n, x, y)
        implies mid_endpoints_floor(g2, n, x, y) by {
        if x == mx && y == my {
            assert(mid_endpoints_floor(g2, n, x, y));
        } else if x == nx && y == ny {
            assert(false);
        } else {
            assert(is_floor(g0, n, x, y));
            assert(mid_endpoints_floor(g0, n, x, y));
        }
    }
}

/// After a carve every open cell is still reachable from the start: old
/// cells by the walks they already had, the midpoint and the neighbor by
/// stepping on from the stack top that discovered them.
proof fn lemma_carve_reachable(g0: Seq<Cell>, g2: Seq<Cell>, n: int, sx: int, sy: int,
    cx: int, cy: int, nx: int, ny: int, mx: int, my: int)
    requires
        n >= 3,
        floors_grow(g0, g2, n),
        all_floor_reachable(g0, n, sx, sy),
        in_grid(n, cx, cy),
        is_floor(g0, n, cx, cy),
        in_grid(n, mx, my),
        in_grid(n, nx, ny),
        is_floor(g2, n, mx, my),
        is_floor(g2, n, nx, ny),
        step_adjacent(cx, cy, mx, my),
        step_adjacent(mx, my, nx, ny),
        forall|x: int, y: int|
            in_grid(n, x, y) && #[trigger] is_floor(g2, n, x, y)
                && !(x == mx && y == my) && !(x == nx && y == ny)
                ==> is_floor(g0, n, x, y),
    ensures
        all_floor_reachable(g2, n, sx, sy),
{
    assert(reaches(g0, n, sx, sy, cx, cy));
    lemma_reaches_monotone(g0, g2, n, sx, sy, cx, cy);
    lemma_reaches_step(g2, n, sx, sy, cx, cy, mx, my);
    lemma_reaches_step(g2, n, sx, sy, mx, my, nx, ny);
    assert forall|x: int, y: int|
        in_grid(n, x, y) && #[trigger] is_floor(g2, n, x, y)
        implies reaches(g2, n, sx, sy, x, y) by {
        if !(x == mx && y == my) && !(x == nx && y == ny) {
            assert(is_floor(g0, n, x, y));
            lemma_reaches_monotone(g0, g2, n, sx, sy, x, y);
        }
    }
}

/// A carve opens exactly one logical cell and one midpoint: the logical
/// count and the midpoint count each rise by one, the total by two.
proof fn lemma_carve_counts(g0: Seq<Cell>, g2: Seq<Cell>, n: int,
    nx: int, ny: int, mx: int, my: int)
    requires
        n >= 3,
        g0.len() == n * n,
        !is_floor(g0, n, mx, my),
        !is_floor(g0, n, nx, ny),
        is_mid_pos(n, mx, my),
        is_logical_pos(n, nx, ny),
        g2 == g0.update(my * n + mx, Cell::Floor).update(ny * n + nx, Cell::Floor),
    ensures
        floor_count(g2, n, PosClass::Logical) == floor_count(g0, n, PosClass::Logical) + 1,
        floor_count(g2, n, PosClass::Mid) == floor_count(g0, n, PosClass::Mid) + 1,
        floor_count(g2, n, PosClass::Any) == floor_count(g0, n, PosClass::Any) + 2,
{
    let m_idx = my * n + mx;
    let b_idx = ny * n + nx;
    lemma_rowmajor_in_range(n, n, mx, my);
    lemma_rowmajor_in_range(n, n, nx, ny);
    assert(b_idx != m_idx) by {
        if b_idx == m_idx {
            lemma_rowmajor_injective(n, nx, ny, mx, my);
        }
    }
    let g1 = g0.update(m_idx, Cell::Floor);
    lemma_fundamental_div_mod_converse(m_idx, n, my, mx);
    lemma_fundamental_div_mod_converse(b_idx, n, ny, nx);
    lemma_floor_count_update(g0, n, PosClass::Logical, n * n, m_idx);
    lemma_floor_count_update(g0, n, PosClass::Mid, n * n, m_idx);
    lemma_floor_count_update(g0, n, PosClass::Any, n * n, m_idx);
    assert(g1[b_idx] != Cell::Floor);
    lemma_floor_count_update(g1, n, PosClass::Logical, n * n, b_idx);
    lemma_floor_count_update(g1, n, PosClass::Mid, n * n, b_idx);
    lemma_floor_count_update(g1, n, PosClass::Any, n * n, b_idx);
}

/// The carvable neighbors of the stack top `(cx, cy)`: its logical cells
/// two steps away on one axis that are within the interior and still
/// walled.
fn collect_candidates(cells: &Vec<Cell>, n: usize, cx: usize, cy: usize)
    -> (cands: Vec<(usize, usize)>)
    requires
        cells@.len() == n * n,
        3 <= n <= MAZE_MAX,
        is_logical_pos(n as int, cx as int, cy as int),
    ensures
        forall|i: int| 0 <= i < cands@.len()
            ==> is_candidate(cells@, n as int, cx as int, cy as int,
                (#[trigger] cands@[i]).0 as int, cands@[i].1 as int),
        cands@.len() <= 4,
        coords_model(cands@) == spec_candidates(cells@, n as int, cx as int, cy as int),
{
    let ghost ni = n as int;
    let ghost cxi = cx as int;
    let ghost cyi = cy as int;
    let ghost s1: Seq<(int, int)> = if cyi >= 3 && !is_floor(cells@, ni, cxi, cyi - 2) {
        seq![(cxi, cyi - 2)]
    } else {
        Seq::empty()
    };
    let ghost s2: Seq<(int, int)> = if cyi + 4 <= ni && !is_floor(cells@, ni, cxi, cyi + 2) {
        seq![(cxi, cyi + 2)]
    } else {
        Seq::empty()
    };
    let ghost s3: Seq<(int, int)> = if cxi >= 3 && !is_floor(cells@, ni, cxi - 2, cyi) {
        seq![(cxi - 2, cyi)]
    } else {
        Seq::empty()
    };
    let ghost s4: Seq<(int, int)> = if cxi + 4 <= ni && !is_floor(cells@, ni, cxi + 2, cyi) {
        seq![(cxi + 2, cyi)]
    } else {
        Seq::empty()
    };
    let mut cands: Vec<(usize, usize)> = Vec::new();
    if cy >= 3 {
        if grid_get(cells, n, cx, cy - 2) == Cell::Wall {
            cands.push((cx, cy - 2));
        }
    }
    proof {
        assert(coords_model(cands@) =~= s1);
    }
    if cy + 4 <= n {
        if grid_get(cells, n, cx, cy + 2) == Cell::Wall {
            cands.push((cx, cy + 2));
        }
    }
    proof {
        assert(coords_model(cands@) =~= s1 + s2);
    }
    if cx >= 3 {
        if grid_get(cells, n, cx - 2, cy) == Cell::Wall {
            cands.push((cx - 2, cy));
        }
    }
    proof {
        assert(coords_model(cands@) =~= s1 + s2 + s3);
    }
    if cx + 4 <= n {
        if grid_get(cells, n, cx + 2, cy) == Cell::Wall {
            cands.push((cx + 2, cy));
        }
    }
    proof {
        assert(coords_model(cands@) =~= s1 + s2 + s3 + s4);
        assert(spec_candidates(cells@, ni, cxi, cyi) == s1 + s2 + s3 + s4);
    }
    cands
}

/// Opens the midpoint between the stack top `(cx, cy)` and its chosen
/// still-walled neighbor `(nx, ny)`, and the neighbor itself. The carved
/// shape is preserved, one logical cell and one midpoint open, and every
/// start that reached all floor cells still does.
fn carve_passage(cells: &mut Vec<Cell>, n: usize, cx: usize, cy: usize, nx: usize, ny: usize)
    requires
        old(cells)@.len() == n * n,
        3 <= n <= MAZE_MAX,
        maze_structure(old(cells)@, n as int),
        is_logical_pos(n as int, cx as int, cy as int),
        is_floor(old(cells)@, n as int, cx as int, cy as int),
        is_candidate(old(cells)@, n as int, cx as int, cy as int, nx as int, ny as int),
    ensures
        final(cells)@.len() == n * n,
        maze_structure(final(cells)@, n as int),
        floors_grow(old(cells)@, final(cells)@, n as int),
        is_floor(final(cells)@, n as int, nx as int, ny as int),
        floor_count(final(cells)@, n as int, PosClass::Logical)
            == floor_count(old(cells)@, n as int, PosClass::Logical) + 1,
        floor_count(final(cells)@, n as int, PosClass::Mid)
            == floor_count(old(cells)@, n as int, PosClass::Mid) + 1,
        floor_count(final(cells)@, n as int, PosClass::Any)
            == floor_count(old(cells)@, n as int, PosClass::Any) + 2,
        edge_count(final(cells)@, n as int) == edge_count(old(cells)@, n as int) + 2,
        forall|sx: int, sy: int|
            #[trigger] all_floor_reachable(old(cells)@, n as int, sx, sy)
                ==> all_floor_reachable(final(cells)@, n as int, sx, sy),
        final(cells)@ == ({
            let mxi = if nx > cx { cx as int + 1 }
                else if nx < cx { cx as int - 1 }
                else { cx as int };
            let myi = if ny > cy { cy as int + 1 }
                else if ny < cy { cy as int - 1 }
                else { cy as int };
            old(cells)@.update(myi * n + mxi, Cell::Floor)
                .update(ny as int * n + nx as int, Cell::Floor)
        }),
{
    let mx = if nx > cx { cx + 1 } else if nx < cx { cx - 1 } else { cx };
    let my = if ny > cy { cy + 1 } else if ny < cy { cy - 1 } else { cy };
    let ghost g0 = cells@;
    proof {
        lemma_mid_geometry(g0, n as int, cx as int, cy as int,
            nx as int, ny as int, mx as int, my as int);
        lemma_rowmajor_in_range(n as int, n as int, mx as int, my as int);
        lemma_rowmajor_in_range(n as int, n as int, nx as int, ny as int);
    }
    grid_set(cells, n, mx, my, Cell::Floor);
    let ghost g1 = cells@;
    grid_set(cells, n, nx, ny, Cell::Floor);
    proof {
        let g2 = cells@;
        lemma_carve_structure(g0, g2, n as int, cx as int, cy as int,
            nx as int, ny as int, mx as int, my as int);
        lemma_carve_counts(g0, g2, n as int, nx as int, ny as int, mx as int, my as int);
        lemma_edge_count_open(g0, n as int, mx as int, my as int);
        lemma_new_mid_neighbors(g0, n as int, cx as int, cy as int,
            nx as int, ny as int, mx as int, my as int);
        assert(!is_floor(g1, n as int, nx as int, ny as int)) by {
            if (ny as int) * (n as int) + nx as int == (my as int) * (n as int) + mx as int {
                lemma_rowmajor_injective(n as int, nx as int, ny as int, mx as int, my as int);
            }
        }
        lemma_edge_count_open(g1, n as int, nx as int, ny as int);
        lemma_new_cell_neighbors(g0, g1, n as int, nx as int, ny as int, mx as int, my as int);
        assert forall|sx: int, sy: int|
            #[trigger] all_floor_reachable(g0, n as int, sx, sy)
            implies all_floor_reachable(g2, n as int, sx, sy) by {
            lemma_carve_reachable(g0, g2, n as int, sx, sy, cx as int, cy as int,
                nx as int, ny as int, mx as int, my as int);
        }
    }
}

/// Generates a perfect maze over an odd `size` x `size` grid by randomized
/// depth-first carving from the start cell, drawing from the given random
/// source.
///
/// On success the grid has the carved-tree shape: floor cells only at
/// logical and midpoint positions, every open midpoint joining two open
/// logical cells, the start cell open, every floor cell reachable from the
/// start, and exactly one more open logical cell than open midpoints.
/// An invalid request is rejected with the matching configuration error.
#[verifier::rlimit(100)]
pub fn create_maze_map(size: usize, start_x: usize, start_y: usize, rng: &mut Prng)
    -> (r: Result<MazeGrid, ConfigError>)
    requires
        size <= MAZE_MAX,
    ensures
        match r {
            Ok(g) => maze_params_ok(size as int, start_x as int, start_y as int)
                && g.size == size
                && g.wf()
                && maze_structure(g.cells@, size as int)
                && is_floor(g.cells@, size as int, start_x as int, start_y as int)
                && all_floor_reachable(g.cells@, size as int, start_x as int, start_y as int)
                && floor_count(g.cells@, size as int, PosClass::Mid) + 1
                    == floor_count(g.cells@, size as int, PosClass::Logical)
                && edge_count(g.cells@, size as int) + 1
                    == floor_count(g.cells@, size as int, PosClass::Any)
                && g.cells@ == spec_generate(
                    size as int, start_x as int, start_y as int, old(rng)@),
            Err(e) => !maze_params_ok(size as int, start_x as int, start_y as int)
                && e == spec_maze_error(size as int, start_x as int, start_y as int),
        },
{
    if size % 2 == 0 {
        return Err(ConfigError::MazeSizeNotOdd);
    }
    if size < 3 {
        return Err(ConfigError::MazeSizeTooSmall);
    }
    if !(1 <= start_x && start_x <= size - 2 && 1 <= start_y && start_y <= size - 2) {
        return Err(ConfigError::MazeStartOutOfRange);
    }
    if start_x % 2 == 0 || start_y % 2 == 0 {
        return Err(ConfigError::MazeStartNotOdd);
    }
    let n = size;
    let ghost seed = rng@;
    proof {
        lemma_mul_upper_bound(n as int, MAZE_MAX as int, n as int, MAZE_MAX as int);
        lemma_mul_nonnegative(n as int, n as int);
    }
    let nn = n * n;
    let mut cells: Vec<Cell> = Vec::new();
    let mut i: usize = 0;
    while i < nn
        invariant
            i <= nn,
            cells@.len() == i,
            forall|k: int| 0 <= k < i ==> cells@[k] != Cell::Floor,
        decreases nn - i,
    {
        cells.push(Cell::Wall);
        i += 1;
    }
    proof {
        lemma_floor_count_all_wall(cells@, n as int, PosClass::Logical, nn as int);
        lemma_floor_count_all_wall(cells@, n as int, PosClass::Mid, nn as int);
        lemma_floor_count_all_wall(cells@, n as int, PosClass::Any, nn as int);
        lemma_edge_count_all_wall(cells@, n as int, nn as int);
        let s_idx = start_y as int * n as int + start_x as int;
        lemma_rowmajor_in_range(n as int, n as int, start_x as int, start_y as int);
        lemma_floor_count_update(cells@, n as int, PosClass::Logical, nn as int, s_idx);
        lemma_floor_count_update(cells@, n as int, PosClass::Mid, nn as int, s_idx);
        lemma_floor_count_update(cells@, n as int, PosClass::Any, nn as int, s_idx);
        lemma_fundamental_div_mod_converse(s_idx, n as int, start_y as int, start_x as int);
        lemma_edge_count_open(cells@, n as int, start_x as int, start_y as int);
        // In the still all-walled grid the start cell has no open neighbor.
        assert(floor_neighbors(cells@, n as int, start_x as int, start_y as int) == 0) by {
            lemma_rowmajor_in_range(n as int, n as int, start_x as int - 1, start_y as int);
            lemma_rowmajor_in_range(n as int, n as int, start_x as int + 1, start_y as int);
            lemma_rowmajor_in_range(n as int, n as int, start_x as int, start_y as int - 1);
            lemma_rowmajor_in_range(n as int, n as int, start_x as int, start_y as int + 1);
        }
    }
    let ghost base = cells@;
    grid_set(&mut cells, n, start_x, start_y, Cell::Floor);
    proof {
        assert forall|x: int, y: int|
            in_grid(n as int, x, y) && #[trigger] is_floor(cells@, n as int, x, y)
            implies x == start_x as int && y == start_y as int by {
            lemma_rowmajor_in_range(n as int, n as int, x, y);
            if y * n as int + x != start_y as int * n as int + start_x as int {
                assert(cells@[y * n as int + x] != Cell::Floor);
            } else {
                lemma_rowmajor_injective(n as int, x, y, start_x as int, start_y as int);
            }
        }
        assert(maze_structure(cells@, n as int));
        assert forall|x: int, y: int|
            in_grid(n as int, x, y) && #[trigger] is_floor(cells@, n as int, x, y)
            implies reaches(cells@, n as int, start_x as int, start_y as int, x, y) by {
            lemma_reaches_self(cells@, n as int, x, y);
        }
    }
    let mut stack: Vec<(usize, usize)> = Vec::new();
    stack.push((start_x, start_y));
    proof {
        let ni = n as int;
        let sxi = start_x as int;
        let syi = start_y as int;
        let g0 = Seq::new((ni * ni) as nat,
            |i: int| if i == syi * ni + sxi { Cell::Floor } else { Cell::Wall });
        assert(cells@ =~= g0);
        assert(coords_model(stack@) =~= seq![(sxi, syi)]);
        assert(spec_generate(size as int, sxi, syi, seed)
            == spec_carve_from(cells@, coords_model(stack@), rng@, ni));
    }
    while stack.len() > 0
        invariant
            n == size,
            n % 2 == 1,
            3 <= n <= MAZE_MAX,
            nn == n * n,
            1 <= start_x <= n - 2 && start_x % 2 == 1,
            1 <= start_y <= n - 2 && start_y % 2 == 1,
            cells@.len() == nn,
            maze_structure(cells@, n as int),
            is_floor(cells@, n as int, start_x as int, start_y as int),
            forall|i: int| 0 <= i < stack@.len()
                ==> is_logical_pos(n as int, (#[trigger] stack@[i]).0 as int, stack@[i].1 as int)
                    && is_floor(cells@, n as int, stack@[i].0 as int, stack@[i].1 as int),
            all_floor_reachable(cells@, n as int, start_x as int, start_y as int),
            floor_count(cells@, n as int, PosClass::Mid) + 1
                == floor_count(cells@, n as int, PosClass::Logical),
            edge_count(cells@, n as int)
                == 2 * floor_count(cells@, n as int, PosClass::Mid),
            spec_carve_from(cells@, coords_model(stack@), rng@, n as int)
                == spec_generate(size as int, start_x as int, start_y as int, seed),
        decreases
            nn - floor_count(cells@, n as int, PosClass::Any),
            stack@.len(),
    {
        proof {
            lemma_floor_count_le(cells@, n as int, PosClass::Any, nn as int);
        }
        let last = stack.len() - 1;
        let (cx, cy) = stack[last];
        let cands = collect_candidates(&cells, n, cx, cy);
        let ghost stack0 = stack@;
        let ghost model0 = coords_model(stack0);
        proof {
            assert(stack_positions_logical(model0, n as int)) by {
                assert forall|i2: int| 0 <= i2 < model0.len()
                    implies is_logical_pos(n as int,
                        (#[trigger] model0[i2]).0, model0[i2].1) by {
                    assert(model0[i2] == (stack0[i2].0 as int, stack0[i2].1 as int));
                }
            }
            assert(model0[model0.len() - 1] == (cx as int, cy as int));
        }
        if cands.len() == 0 {
            stack.pop();
            proof {
                assert(coords_model(stack@) =~= model0.drop_last());
                assert(spec_candidates(cells@, n as int, cx as int, cy as int).len() == 0);
                assert(spec_carve_from(cells@, model0, rng@, n as int)
                    == spec_carve_from(cells@, coords_model(stack@), rng@, n as int));
            }
        } else {
            let ghost s0 = rng@;
            let k = rng.next_below(cands.len() as u64) as usize;
            let (nx, ny) = cands[k];
            let ghost g0 = cells@;
            carve_passage(&mut cells, n, cx, cy, nx, ny);
            stack.push((nx, ny));
            proof {
                lemma_floor_count_le(cells@, n as int, PosClass::Any, nn as int);
                assert forall|i2: int| 0 <= i2 < stack@.len()
                    implies is_logical_pos(n as int,
                        (#[trigger] stack@[i2]).0 as int, stack@[i2].1 as int)
                        && is_floor(cells@, n as int,
                            stack@[i2].0 as int, stack@[i2].1 as int) by {
                    if i2 < stack@.len() - 1 {
                        assert(is_floor(g0, n as int, stack@[i2].0 as int, stack@[i2].1 as int));
                    }
                }
                let ni = n as int;
                let cands_spec = spec_candidates(g0, ni, cx as int, cy as int);
                assert(cands_spec == coords_model(cands@));
                assert(k as int == spec_lcg_draw(s0, cands_spec.len() as int));
                assert(cands_spec[k as int] == (nx as int, ny as int));
                assert(coords_model(stack@) =~= model0.push((nx as int, ny as int)));
                assert(rng@ == spec_lcg_next(s0));
                assert(spec_carve_from(g0, model0, s0, ni)
                    == spec_carve_from(cells@, coords_model(stack@), rng@, ni));
            }
        }
    }
    proof {
        lemma_floor_count_partition(cells@, n as int, nn as int);
        assert(coords_model(stack@) =~= Seq::<(int, int)>::empty());
        assert(spec_carve_from(cells@, coords_model(stack@), rng@, n as int) == cells@);
    }
    Ok(MazeGrid { size: n, cells })
}

/// The neighbor position is off the grid or holds a wall.
pub open spec fn wallish(g: Seq<Cell>, n: int, x: int, y: int) -> bool {
    !in_grid(n, x, y) || cell_at(g, n, x, y) == Cell::Wall
}

/// Whether the pixel at `(px, py)` of the expanded image lies on a floor
/// tile's inward border: one pixel inside the tile edge, on a side whose
/// neighboring cell is walled, and not on the tile's outermost ring.
pub open spec fn spec_tile_border(g: Seq<Cell>, n: int, tile: int, px: int, py: int) -> bool {
    let cx = px / tile;
    let cy = py / tile;
    let tx = px % tile;
    let ty = py % tile;
    0 < tx < tile - 1 && 0 < ty < tile - 1
        && ((tx == 1 && wallish(g, n, cx - 1, cy))
            || (tx == tile - 2 && wallish(g, n, cx + 1, cy))
            || (ty == 1 && wallish(g, n, cx, cy - 1))
            || (ty == tile - 2 && wallish(g, n, cx, cy + 1)))
}

/// What the expanded image holds at `(px, py)`: wall cells fill their tile
/// solid with the wall color; floor cells show the floor color, except for
/// a one-pixel inward border on the sides that face a walled neighbor.
pub open spec fn spec_texture_pixel(g: Seq<Cell>, n: int, tile: int,
    wall_color: Rgba, floor_color: Rgba, px: int, py: int) -> Rgba {
    if cell_at(g, n, px / tile, py / tile) == Cell::Wall {
        wall_color
    } else if spec_tile_border(g, n, tile, px, py) {
        wall_color
    } else {
        floor_color
    }
}

/// Whether the pixel's cell is a wall, and whether the pixel lies on a
/// floor tile's inward border.
fn texture_classify(cells: &Vec<Cell>, n: usize, tile: usize, px: usize, py: usize)
    -> (r: (bool, bool))
    requires
        cells@.len() == n * n,
        n <= MAZE_MAX,
        1 <= tile,
        n * tile <= 0x8000,
        px < n * tile,
        py < n * tile,
    ensures
        r.0 == (cell_at(cells@, n as int, px as int / tile as int, py as int / tile as int)
            == Cell::Wall),
        r.1 == spec_tile_border(cells@, n as int, tile as int, px as int, py as int),
{
    proof {
        lemma_mul_nonnegative(n as int, tile as int);
        assert(n as int * tile as int == tile as int * n as int) by (nonlinear_arith);
        vstd::arithmetic::div_mod::lemma_multiply_divide_lt(px as int, tile as int, n as int);
        vstd::arithmetic::div_mod::lemma_multiply_divide_lt(py as int, tile as int, n as int);
        vstd::arithmetic::div_mod::lemma_mod_bound(px as int, tile as int);
        vstd::arithmetic::div_mod::lemma_mod_bound(py as int, tile as int);
    }
    let cx = px / tile;
    let cy = py / tile;
    let tx = px % tile;
    let ty = py % tile;
    let cell_wall = grid_get(cells, n, cx, cy) == Cell::Wall;
    let left = if cx == 0 { true } else { grid_get(cells, n, cx - 1, cy) == Cell::Wall };
    let right = if cx + 1 >= n { true } else { grid_get(cells, n, cx + 1, cy) == Cell::Wall };
    let up = if cy == 0 { true } else { grid_get(cells, n, cx, cy - 1) == Cell::Wall };
    let down = if cy + 1 >= n { true } else { grid_get(cells, n, cx, cy + 1) == Cell::Wall };
    let border = 0 < tx && tx < tile - 1 && 0 < ty && ty < tile - 1
        && ((tx == 1 && left) || (tx == tile - 2 && right)
            || (ty == 1 && up) || (ty == tile - 2 && down));
    (cell_wall, border)
}

/// Expands the logical grid to a pixel image: each cell becomes a
/// `tile_size` x `tile_size` block, wall cells filled solid with the wall
/// color, floor cells floor-colored with a one-pixel inward border on the
/// sides that face a walled neighbor.
pub fn create_maze_texture(maze_map: &MazeGrid, tile_size: usize,
    wall_color: Rgba, floor_color: Rgba) -> (img: Frame)
    requires
        maze_map.wf(),
        1 <= tile_size,
        maze_map.size * tile_size <= 0x8000,
    ensures
        img.wf(),
        img.width == maze_map.size * tile_size,
        img.height == maze_map.size * tile_size,
        forall|px: int, py: int|
            0 <= px < img.width && 0 <= py < img.height
                ==> img.spec_pixel(px, py) == spec_texture_pixel(
                    maze_map.cells@, maze_map.size as int, tile_size as int,
                    wall_color, floor_color, px, py),
{
    let n = maze_map.size;
    let tile = tile_size;
    let side = n * tile;
    let ghost spec_of = |px: int, py: int| spec_texture_pixel(
        maze_map.cells@, n as int, tile as int, wall_color, floor_color, px, py);
    let mut img = Frame::new(side, side, wall_color);
    let mut px: usize = 0;
    while px < side
        invariant
            px <= side,
            side == n * tile,
            side <= 0x8000,
            1 <= tile,
            n <= MAZE_MAX,
            maze_map.wf(),
            n == maze_map.size,
            img.wf(),
            img.width == side,
            img.height == side,
            spec_of == |qx: int, qy: int| spec_texture_pixel(
                maze_map.cells@, n as int, tile as int, wall_color, floor_color, qx, qy),
            forall|qx: int, qy: int| 0 <= qx < px && 0 <= qy < side
                ==> img.spec_pixel(qx, qy) == spec_of(qx, qy),
        decreases side - px,
    {
        let mut py: usize = 0;
        while py < side
            invariant
                py <= side,
                px < side,
                side == n * tile,
                side <= 0x8000,
                1 <= tile,
                n <= MAZE_MAX,
                maze_map.wf(),
                n == maze_map.size,
                img.wf(),
                img.width == side,
                img.height == side,
                spec_of == |qx: int, qy: int| spec_texture_pixel(
                    maze_map.cells@, n as int, tile as int, wall_color, floor_color, qx, qy),
                forall|qx: int, qy: int| 0 <= qx < px && 0 <= qy < side
                    ==> img.spec_pixel(qx, qy) == spec_of(qx, qy),
                forall|qy: int| 0 <= qy < py
                    ==> img.spec_pixel(px as int, qy) == spec_of(px as int, qy),
            decreases side - py,
        {
            let ghost old_img = img;
            let (cell_wall, border) = texture_classify(&maze_map.cells, n, tile, px, py);
            let c = if cell_wall || border { wall_color } else { floor_color };
            img.set_pixel(px, py, c);
            proof {
                lemma_rowmajor_in_range(side as int, side as int, px as int, py as int);
                assert(c == spec_of(px as int, py as int));
                assert forall|qx: int, qy: int| 0 <= qx < side && 0 <= qy < side
                    && !(qx == px && qy == py)
                    implies img.spec_pixel(qx, qy) == old_img.spec_pixel(qx, qy) by {
                    lemma_rowmajor_in_range(side as int, side as int, qx, qy);
                    if qy * side as int + qx == py as int * side as int + px as int {
                        lemma_rowmajor_injective(side as int, qx, qy, px as int, py as int);
                    }
                }
            }
            py += 1;
        }
        px += 1;
    }
    img
}

/// Expands the logical grid like [`create_maze_texture`], but erodes the
/// solid wall fill for texture: each wall-cell pixel is skipped (left at
/// the floor color) with chance one in `erosion_n`, drawn from the given
/// random source. Floor tiles, borders included, are exact; a wall-cell
/// pixel holds one of the two colors.
pub fn create_maze_texture_eroded(maze_map: &MazeGrid, tile_size: usize,
    wall_color: Rgba, floor_color: Rgba, erosion_n: u64, rng: &mut Prng) -> (img: Frame)
    requires
        maze_map.wf(),
        1 <= tile_size,
        maze_map.size * tile_size <= 0x8000,
        erosion_n >= 1,
    ensures
        img.wf(),
        img.width == maze_map.size * tile_size,
        img.height == maze_map.size * tile_size,
        forall|px: int, py: int|
            0 <= px < img.width && 0 <= py < img.height
                && cell_at(maze_map.cells@, maze_map.size as int,
                    px / tile_size as int, py / tile_size as int) == Cell::Wall
                ==> #[trigger] img.spec_pixel(px, py) == wall_color
                    || img.spec_pixel(px, py) == floor_color,
        forall|px: int, py: int|
            0 <= px < img.width && 0 <= py < img.height
                && cell_at(maze_map.cells@, maze_map.size as int,
                    px / tile_size as int, py / tile_size as int) != Cell::Wall
                ==> #[trigger] img.spec_pixel(px, py) == spec_texture_pixel(
                    maze_map.cells@, maze_map.size as int, tile_size as int,
                    wall_color, floor_color, px, py),
{
    let n = maze_map.size;
    let tile = tile_size;
    let side = n * tile;
    let ghost ok_at = |img: Frame, px: int, py: int| {
        let exact = spec_texture_pixel(
            maze_map.cells@, n as int, tile as int, wall_color, floor_color, px, py);
        if cell_at(maze_map.cells@, n as int, px / tile as int, py / tile as int)
            == Cell::Wall {
            img.spec_pixel(px, py) == wall_color || img.spec_pixel(px, py) == floor_color
        } else {
            img.spec_pixel(px, py) == exact
        }
    };
    let mut img = Frame::new(side, side, floor_color);
    let mut px: usize = 0;
    while px < side
        invariant
            px <= side,
            side == n * tile,
            side <= 0x8000,
            1 <= tile,
            erosion_n >= 1,
            n <= MAZE_MAX,
            maze_map.wf(),
            n == maze_map.size,
            img.wf(),
            img.width == side,
            img.height == side,
            ok_at == |im: Frame, qx: int, qy: int| {
                let exact = spec_texture_pixel(
                    maze_map.cells@, n as int, tile as int, wall_color, floor_color, qx, qy);
                if cell_at(maze_map.cells@, n as int, qx / tile as int, qy / tile as int)
                    == Cell::Wall {
                    im.spec_pixel(qx, qy) == wall_color || im.spec_pixel(qx, qy) == floor_color
                } else {
                    im.spec_pixel(qx, qy) == exact
                }
            },
            forall|qx: int, qy: int| 0 <= qx < px && 0 <= qy < side
                ==> #[trigger] ok_at(img, qx, qy),
        decreases side - px,
    {
        let mut py: usize = 0;
        while py < side
            invariant
                py <= side,
                px < side,
                side == n * tile,
                side <= 0x8000,
                1 <= tile,
                erosion_n >= 1,
                n <= MAZE_MAX,
                maze_map.wf(),
                n == maze_map.size,
                img.wf(),
                img.width == side,
                img.height == side,
                ok_at == |im: Frame, qx: int, qy: int| {
                    let exact = spec_texture_pixel(
                        maze_map.cells@, n as int, tile as int, wall_color, floor_color, qx, qy);
                    if cell_at(maze_map.cells@, n as int, qx / tile as int, qy / tile as int)
                        == Cell::Wall {
                        im.spec_pixel(qx, qy) == wall_color
                            || im.spec_pixel(qx, qy) == floor_color
                    } else {
                        im.spec_pixel(qx, qy) == exact
                    }
                },
                forall|qx: int, qy: int| 0 <= qx < px && 0 <= qy < side
                    ==> #[trigger] ok_at(img, qx, qy),
                forall|qy: int| 0 <= qy < py ==> #[trigger] ok_at(img, px as int, qy),
            decreases side - py,
        {
            let ghost old_img = img;
            let (cell_wall, border) = texture_classify(&maze_map.cells, n, tile, px, py);
            let c = if cell_wall {
                if rng.next_below(erosion_n) == 0 { floor_color } else { wall_color }
            } else if border {
                wall_color
            } else {
                floor_color
            };
            img.set_pixel(px, py, c);
            proof {
                lemma_rowmajor_in_range(side as int, side as int, px as int, py as int);
                assert(ok_at(img, px as int, py as int));
                assert forall|qx: int, qy: int| 0 <= qx < side && 0 <= qy < side
                    && !(qx == px && qy == py)
                    implies img.spec_pixel(qx, qy) == old_img.spec_pixel(qx, qy) by {
                    lemma_rowmajor_in_range(side as int, side as int, qx, qy);
                    if qy * side as int + qx == py as int * side as int + px as int {
                        lemma_rowmajor_injective(side as int, qx, qy, px as int, py as int);
                    }
                }
                assert forall|qx: int, qy: int| 0 <= qx < px as int && 0 <= qy < side
                    implies #[trigger] ok_at(img, qx, qy) by {
                    assert(ok_at(old_img, qx, qy));
                }
                assert forall|qy: int| 0 <= qy < py as int
                    implies #[trigger] ok_at(img, px as int, qy) by {
                    assert(ok_at(old_img, px as int, qy));
                }
            }
            py += 1;
        }
        px += 1;
    }
    proof {
        assert forall|qx: int, qy: int|
            0 <= qx < side && 0 <= qy < side
                && cell_at(maze_map.cells@, n as int,
                    qx / tile as int, qy / tile as int) == Cell::Wall
            implies #[trigger] img.spec_pixel(qx, qy) == wall_color
                || img.spec_pixel(qx, qy) == floor_color by {
            assert(ok_at(img, qx, qy));
        }
        assert forall|qx: int, qy: int|
            0 <= qx < side && 0 <= qy < side
                && cell_at(maze_map.cells@, n as int,
                    qx / tile as int, qy / tile as int) != Cell::Wall
            implies #[trigger] img.spec_pixel(qx, qy) == spec_texture_pixel(
                maze_map.cells@, n as int, tile as int,
                wall_color, floor_color, qx, qy) by {
            assert(ok_at(img, qx, qy));
        }
    }
    img
}

} // verus!
