//! The periodic uniform grid that buckets particle indices by position.
use vstd::prelude::*;
use crate::config::EXTENT_LIMIT;
use crate::fixed::Vec2;

verus! {

/// Most cells along one axis of the grid.
pub const AXIS_CELL_LIMIT: usize = 1024;

/// Number of cells along an axis of length `extent` for interaction cutoff
/// `cutoff`: as many whole cutoff lengths as fit, at least one, at most
/// `AXIS_CELL_LIMIT`. Cells are stretched to cover the axis exactly, so none
/// is narrower than the cutoff.
pub open spec fn cells_along(extent: int, cutoff: int) -> int {
    if cutoff <= 0 || extent / cutoff < 1 {
        1
    } else if extent / cutoff > AXIS_CELL_LIMIT {
        AXIS_CELL_LIMIT as int
    } else {
        extent / cutoff
    }
}

/// One bucket of the grid: its column and row, and the particle indices in it.
pub struct Cell {
    pub pos: (usize, usize),
    pub particles: Vec<usize>,
}

/// A grid of `shape.0` columns by `shape.1` rows over a domain of
/// `width` x `height`, cells stored row by row.
pub struct Grid {
    pub cells: Vec<Cell>,
    pub shape: (usize, usize),
    pub width: i64,
    pub height: i64,
}

impl Grid {
    pub open spec fn columns(&self) -> int {
        self.shape.0 as int
    }

    pub open spec fn rows(&self) -> int {
        self.shape.1 as int
    }

    pub open spec fn wf(&self) -> bool {
        &&& 0 < self.width <= EXTENT_LIMIT
        &&& 0 < self.height <= EXTENT_LIMIT
        &&& 1 <= self.shape.0 <= AXIS_CELL_LIMIT
        &&& 1 <= self.shape.1 <= AXIS_CELL_LIMIT
        &&& self.cells@.len() == self.columns() * self.rows()
        &&& forall|k: int|
            0 <= k < self.cells@.len() ==> #[trigger] self.cells@[k].pos == (
                (k % self.columns()) as usize,
                (k / self.columns()) as usize,
            )
    }

    /// Column of the cell holding abscissa `x`: `floor(x / cell_width)`
    /// with `cell_width = width / columns`.
    pub open spec fn column_of(&self, x: int) -> int {
        x * self.columns() / (self.width as int)
    }

    pub open spec fn row_of(&self, y: int) -> int {
        y * self.rows() / (self.height as int)
    }

    /// Index in `cells` of the cell holding position `p`.
    pub open spec fn home(&self, p: Vec2) -> int {
        self.row_of(p.y as int) * self.columns() + self.column_of(p.x as int)
    }

    /// Column and row of the cell of any position: the coordinate divided
    /// by the cell size and rounded down, taken modulo the grid's shape, so
    /// that indexing wraps around the domain.
    pub open spec fn cell_of(&self, p: Vec2) -> (int, int) {
        (
            ((p.x as int) * self.columns() / (self.width as int)) % self.columns(),
            ((p.y as int) * self.rows() / (self.height as int)) % self.rows(),
        )
    }

    /// Index in `cells` of the cell of any position (see `cell_of`).
    pub open spec fn slot_of(&self, p: Vec2) -> int {
        self.cell_of(p).1 * self.columns() + self.cell_of(p).0
    }

    pub open spec fn contains(&self, p: Vec2) -> bool {
        0 <= p.x < self.width && 0 <= p.y < self.height
    }

    /// The particle lists of the cells.
    pub open spec fn buckets(&self) -> Seq<Seq<usize>> {
        self.cells@.map_values(|c: Cell| c.particles@)
    }

    /// The indices below `n`, in increasing order, of the positions whose
    /// home is cell `c`.
    pub open spec fn members(&self, positions: Seq<Vec2>, c: int, n: int) -> Seq<usize>
        decreases n,
    {
        if n <= 0 {
            seq![]
        } else if self.home(positions[n - 1]) == c {
            self.members(positions, c, n - 1).push((n - 1) as usize)
        } else {
            self.members(positions, c, n - 1)
        }
    }

    /// Every cell lists exactly the indices of the positions it holds, in
    /// increasing order.
    pub open spec fn indexes(&self, positions: Seq<Vec2>) -> bool {
        forall|c: int|
            0 <= c < self.cells@.len() ==> (#[trigger] self.cells@[c]).particles@ == self.members(
                positions,
                c,
                positions.len() as int,
            )
    }

    /// Builds an empty grid whose cells are at least `cutoff` wide and high.
    pub fn new(width: i64, height: i64, cutoff: i64) -> (r: Grid)
        requires
            0 < width <= EXTENT_LIMIT,
            0 < height <= EXTENT_LIMIT,
            0 <= cutoff,
        ensures
            r.wf(),
            r.width == width,
            r.height == height,
            r.columns() == cells_along(width as int, cutoff as int),
            r.rows() == cells_along(height as int, cutoff as int),
            forall|k: int| 0 <= k < r.cells@.len() ==> (#[trigger] r.cells@[k]).particles@.len() == 0,
    {
        let cols = axis_cells(width, cutoff);
        let rows = axis_cells(height, cutoff);
        let mut cells: Vec<Cell> = Vec::new();
        let mut y: usize = 0;
        while y < rows
            invariant
                1 <= cols <= AXIS_CELL_LIMIT,
                1 <= rows <= AXIS_CELL_LIMIT,
                y <= rows,
                cells@.len() == y * cols,
                forall|k: int|
                    0 <= k < cells@.len() ==> #[trigger] cells@[k].pos == (
                        (k % cols as int) as usize,
                        (k / cols as int) as usize,
                    ),
                forall|k: int| 0 <= k < cells@.len() ==> (#[trigger] cells@[k]).particles@.len() == 0,
            decreases rows - y,
        {
            let mut x: usize = 0;
            while x < cols
                invariant
                    1 <= cols <= AXIS_CELL_LIMIT,
                    y < rows <= AXIS_CELL_LIMIT,
                    x <= cols,
                    cells@.len() == y * cols + x,
                    forall|k: int|
                        0 <= k < cells@.len() ==> #[trigger] cells@[k].pos == (
                            (k % cols as int) as usize,
                            (k / cols as int) as usize,
                        ),
                    forall|k: int| 0 <= k < cells@.len() ==> (#[trigger] cells@[k]).particles@.len() == 0,
                decreases cols - x,
            {
                proof {
                    assert(y * cols + x < AXIS_CELL_LIMIT * AXIS_CELL_LIMIT) by (nonlinear_arith)
                        requires y < rows <= AXIS_CELL_LIMIT, x < cols <= AXIS_CELL_LIMIT;
                    vstd::arithmetic::div_mod::lemma_fundamental_div_mod_converse(
                        (y * cols + x) as int,
                        cols as int,
                        y as int,
                        x as int,
                    );
                }
                cells.push(Cell { pos: (x, y), particles: Vec::new() });
                x = x + 1;
            }
            proof {
                assert((y + 1) * cols == y * cols + cols) by (nonlinear_arith);
            }
            y = y + 1;
        }
        assert(rows * cols == cols * rows) by (nonlinear_arith);
        Grid { cells, shape: (cols, rows), width, height }
    }

    /// Column and row of the cell of `pos` (see `cell_of`); inside the
    /// domain, the cell holding it.
    pub fn cell_pos_from_pos(&self, pos: Vec2) -> (r: (usize, usize))
        requires
            self.wf(),
        ensures
            (r.0 as int, r.1 as int) == self.cell_of(pos),
            r.0 < self.shape.0,
            r.1 < self.shape.1,
            self.contains(pos) ==> r.0 as int == self.column_of(pos.x as int) && r.1 as int
                == self.row_of(pos.y as int),
    {
        let x = wrapped_index(pos.x, self.shape.0, self.width);
        let y = wrapped_index(pos.y, self.shape.1, self.height);
        proof {
            if self.contains(pos) {
                lemma_axis_index(pos.x as int, self.columns(), self.width as int);
                lemma_axis_index(pos.y as int, self.rows(), self.height as int);
                vstd::arithmetic::div_mod::lemma_small_mod(
                    (pos.x * self.columns() / (self.width as int)) as nat,
                    self.columns() as nat,
                );
                vstd::arithmetic::div_mod::lemma_small_mod(
                    (pos.y * self.rows() / (self.height as int)) as nat,
                    self.rows() as nat,
                );
            }
        }
        (x, y)
    }

    /// Adds particle `index`, located at `pos`, to the cell of `pos` (see
    /// `cell_of`).
    pub fn insert(&mut self, index: usize, pos: Vec2)
        requires
            old(self).wf(),
        ensures
            final(self).wf(),
            final(self).shape == old(self).shape,
            final(self).width == old(self).width,
            final(self).height == old(self).height,
            0 <= old(self).slot_of(pos) < old(self).cells@.len(),
            old(self).contains(pos) ==> old(self).slot_of(pos) == old(self).home(pos),
            final(self).buckets() == old(self).buckets().update(
                old(self).slot_of(pos),
                old(self).buckets()[old(self).slot_of(pos)].push(index),
            ),
    {
        let (x, y) = self.cell_pos_from_pos(pos);
        proof {
            lemma_cell_index(x as int, y as int, self.columns(), self.rows());
        }
        let k = y * self.shape.0 + x;
        let ghost before = self.cells@;
        self.cells[k].particles.push(index);
        proof {
            assert(self.cells@[k as int].pos == before[k as int].pos);
            assert forall|j: int| 0 <= j < self.cells@.len() implies #[trigger] self.cells@[j].pos
                == before[j].pos by {
                if j != k {
                    assert(self.cells@[j] == before[j]);
                }
            }
            assert(self.buckets() =~= before.map_values(|c: Cell| c.particles@).update(
                k as int,
                before[k as int].particles@.push(index),
            ));
        }
    }
}

/// `floor(a * n / extent) mod n`, for any coordinate `a`.
fn wrapped_index(a: i64, n: usize, extent: i64) -> (r: usize)
    requires
        1 <= n <= AXIS_CELL_LIMIT,
        0 < extent,
    ensures
        r as int == ((a as int) * (n as int) / (extent as int)) % (n as int),
        r < n,
{
    assert(-0x8000_0000_0000_0000 * 1024 <= (a as int) * (n as int) <= 0x8000_0000_0000_0000 * 1024)
        by (nonlinear_arith)
        requires 1 <= n <= 1024, -0x8000_0000_0000_0000 <= a < 0x8000_0000_0000_0000;
    let scaled: i128 = a as i128 * n as i128;
    proof {
        vstd::arithmetic::div_mod::lemma_fundamental_div_mod(scaled as int, extent as int);
        vstd::arithmetic::div_mod::lemma_mod_bound(scaled as int / (extent as int), n as int);
        assert(-0x1_0000_0000_0000_0000_0000 <= scaled as int / (extent as int) <= 0x1_0000_0000_0000_0000_0000)
            by (nonlinear_arith)
            requires
                extent * (scaled as int / (extent as int)) + (scaled as int) % (extent as int) == scaled,
                0 <= (scaled as int) % (extent as int) < extent,
                extent >= 1,
                -0x1_0000_0000_0000_0000_0000 <= scaled <= 0x1_0000_0000_0000_0000_0000;
    }
    let q: i128 = match scaled.checked_div_euclid(extent as i128) {
        Some(q) => q,
        None => 0,
    };
    let m: i128 = match q.checked_rem_euclid(n as i128) {
        Some(m) => m,
        None => 0,
    };
    m as usize
}

/// Cells along an axis (see `cells_along`).
fn axis_cells(extent: i64, cutoff: i64) -> (r: usize)
    requires
        0 < extent <= EXTENT_LIMIT,
        0 <= cutoff,
    ensures
        r as int == cells_along(extent as int, cutoff as int),
        1 <= r <= AXIS_CELL_LIMIT,
{
    if cutoff <= 0 {
        1
    } else {
        let n = extent / cutoff;
        if n < 1 {
            1
        } else if n > AXIS_CELL_LIMIT as i64 {
            AXIS_CELL_LIMIT
        } else {
            n as usize
        }
    }
}

/// A coordinate inside an axis of length `extent` cut into `n` cells falls
/// into a cell index below `n`.
pub proof fn lemma_axis_index(a: int, n: int, extent: int)
    requires
        0 <= a < extent <= EXTENT_LIMIT,
        1 <= n <= AXIS_CELL_LIMIT,
    ensures
        0 <= a * n / extent < n,
        a * n <= EXTENT_LIMIT * AXIS_CELL_LIMIT,
        0 <= a * n,
        a * n < extent * n,
{
    assert(0 <= a * n) by (nonlinear_arith)
        requires 0 <= a, 1 <= n;
    assert(a * n < extent * n) by (nonlinear_arith)
        requires a < extent, 1 <= n;
    assert(a * n <= EXTENT_LIMIT * AXIS_CELL_LIMIT) by (nonlinear_arith)
        requires 0 <= a < extent <= EXTENT_LIMIT, 1 <= n <= AXIS_CELL_LIMIT;
    vstd::arithmetic::div_mod::lemma_div_pos_is_pos(a * n, extent);
    vstd::arithmetic::div_mod::lemma_fundamental_div_mod(a * n, extent);
    let q = a * n / extent;
    assert(q < n) by (nonlinear_arith)
        requires extent * q + (a * n) % extent == a * n, 0 <= (a * n) % extent,
            a * n < extent * n, extent > 0;
}

/// Flattening a column and row inside the shape stays inside the cell array.
pub proof fn lemma_cell_index(x: int, y: int, cols: int, rows: int)
    requires
        0 <= x < cols <= AXIS_CELL_LIMIT,
        0 <= y < rows <= AXIS_CELL_LIMIT,
    ensures
        0 <= y * cols + x < cols * rows,
        cols * rows <= AXIS_CELL_LIMIT * AXIS_CELL_LIMIT,
        (y * cols + x) % cols == x,
        (y * cols + x) / cols == y,
{
    assert(0 <= y * cols + x < cols * rows) by (nonlinear_arith)
        requires 0 <= x < cols, 0 <= y < rows;
    assert(cols * rows <= AXIS_CELL_LIMIT * AXIS_CELL_LIMIT) by (nonlinear_arith)
        requires 0 < cols <= AXIS_CELL_LIMIT, 0 < rows <= AXIS_CELL_LIMIT;
    vstd::arithmetic::div_mod::lemma_fundamental_div_mod_converse(y * cols + x, cols, y, x);
}

} // verus!

verus! {

/// What `members` lists: exactly the indices below `n` whose position has
/// its home in cell `c`, each once, in increasing order.
pub proof fn lemma_members(g: Grid, positions: Seq<Vec2>, c: int, n: int)
    requires
        0 <= n <= positions.len(),
        positions.len() <= usize::MAX,
    ensures
        forall|k: int|
            0 <= k < g.members(positions, c, n).len() ==> #[trigger] g.members(positions, c, n)[k] < n,
        forall|k: int|
            0 <= k < g.members(positions, c, n).len() ==> g.home(
                positions[#[trigger] g.members(positions, c, n)[k] as int],
            ) == c,
        forall|k1: int, k2: int|
            0 <= k1 < k2 < g.members(positions, c, n).len() ==> #[trigger] g.members(positions, c, n)[k1]
                < #[trigger] g.members(positions, c, n)[k2],
        forall|i: int|
            0 <= i < n && g.home(#[trigger] positions[i]) == c ==> g.members(positions, c, n).contains(
                i as usize,
            ),
    decreases n,
{
    if n > 0 {
        lemma_members(g, positions, c, n - 1);
        let prev = g.members(positions, c, n - 1);
        if g.home(positions[n - 1]) == c {
            let cur = prev.push((n - 1) as usize);
            assert(cur == g.members(positions, c, n));
            assert(cur[prev.len() as int] == (n - 1) as usize);
            assert forall|k: int| 0 <= k < cur.len() implies #[trigger] cur[k] < n && g.home(
                positions[cur[k] as int],
            ) == c by {
                if k < prev.len() {
                    assert(cur[k] == prev[k]);
                }
            }
            assert forall|k1: int, k2: int| 0 <= k1 < k2 < cur.len() implies #[trigger] cur[k1]
                < #[trigger] cur[k2] by {
                assert(cur[k1] == prev[k1]);
                if k2 < prev.len() {
                    assert(cur[k2] == prev[k2]);
                }
            }
            assert forall|i: int|
                0 <= i < n && g.home(#[trigger] positions[i]) == c implies cur.contains(i as usize) by {
                if i < n - 1 {
                    let k = choose|k: int| 0 <= k < prev.len() && prev[k] == i as usize;
                    assert(cur[k] == i as usize);
                }
            }
        }
    }
}

} // verus!
