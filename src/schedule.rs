//! Splitting the force phase across workers: how many, which cells each
//! one owns, and why their write sets never overlap.
use vstd::prelude::*;
use crate::config::SimConfig;
use crate::fixed::Vec2;
use crate::grid::Grid;
use crate::particle::{
    after_forces, lemma_apply_own_writes, lemma_range_writes, lemma_range_writes_cover, positions,
    range_writes, velocity_after, with_writes, writes_in_range, Particle,
};
use crate::types::ParticleType;

verus! {

/// Number of workers for `available` cores and a configured maximum: the
/// smaller of the two, and at least one.
pub open spec fn workers_for_spec(available: int, configured_max: int) -> int {
    let m = if available < configured_max {
        available
    } else {
        configured_max
    };
    if m < 1 {
        1
    } else {
        m
    }
}

pub fn workers_for(available: usize, configured_max: usize) -> (r: usize)
    ensures
        r as int == workers_for_spec(available as int, configured_max as int),
{
    let m = if available < configured_max {
        available
    } else {
        configured_max
    };
    if m < 1 {
        1
    } else {
        m
    }
}

/// Relies on `num_cpus::get`: the number of logical CPUs this process may
/// use, documented to be at least 1.
#[verifier::external_body]
fn available_cores() -> (r: usize)
    ensures
        r >= 1,
{
    num_cpus::get()
}

/// Workers to use on this machine: the cores available, bounded by
/// `configured_max`, never fewer than one.
pub fn worker_count(configured_max: usize) -> (r: usize)
    ensures
        r >= 1,
        configured_max >= 1 ==> r <= configured_max,
{
    let cores = available_cores();
    workers_for(cores, configured_max)
}

/// Cells per chunk when `cells` cells are shared by `workers` workers:
/// the quotient rounded up.
pub open spec fn chunk_size(cells: int, workers: int) -> int {
    if cells <= 0 {
        0
    } else {
        (cells - 1) / workers + 1
    }
}

/// Number of chunks of `size` cells needed to cover `cells` cells.
pub open spec fn chunk_count(cells: int, size: int) -> int {
    if size <= 0 {
        0
    } else {
        (cells + size - 1) / size
    }
}

/// The chunk plan: chunk `k` holds cells `k * size .. min((k + 1) * size, cells)`.
pub open spec fn chunk_plan(cells: int, workers: int) -> Seq<(usize, usize)> {
    let size = chunk_size(cells, workers);
    Seq::new(
        chunk_count(cells, size) as nat,
        |k: int|
            (
                (k * size) as usize,
                (if (k + 1) * size < cells {
                    (k + 1) * size
                } else {
                    cells
                }) as usize,
            ),
    )
}

/// Splits `cells` cells into contiguous chunks of nearly equal size, at most
/// one per worker.
pub fn plan_chunks(cells: usize, workers: usize) -> (r: Vec<(usize, usize)>)
    requires
        workers >= 1,
        cells <= 0x10_0000,
    ensures
        r@ == chunk_plan(cells as int, workers as int),
        r@.len() <= workers,
{
    let size: usize = if cells == 0 {
        0
    } else {
        (cells - 1) / workers + 1
    };
    let mut out: Vec<(usize, usize)> = Vec::new();
    if size == 0 {
        assert(out@ =~= chunk_plan(cells as int, workers as int));
        return out;
    }
    let ghost count = chunk_count(cells as int, size as int);
    proof {
        lemma_chunk_count(cells as int, workers as int);
        lemma_chunk_index(cells as int, size as int, 0);
        vstd::arithmetic::div_mod::lemma_div_is_ordered_by_denominator((cells - 1) as int, 1, workers as int);
        assert((cells - 1) as int / 1 == cells - 1);
        assert(size <= cells);
    }
    let mut start: usize = 0;
    let mut k: usize = 0;
    while start < cells
        invariant
            size == chunk_size(cells as int, workers as int),
            size >= 1,
            size <= cells,
            cells <= 0x10_0000,
            count == chunk_count(cells as int, size as int),
            count <= workers,
            start == if k * size < cells {
                k * size
            } else {
                cells as int
            },
            k <= count,
            k < count <==> start < cells,
            out@ == chunk_plan(cells as int, workers as int).take(k as int),
        decreases cells - start,
    {
        let end: usize = if start + size < cells {
            start + size
        } else {
            cells
        };
        out.push((start, end));
        proof {
            assert((k + 1) * size == k * size + size) by (nonlinear_arith);
            lemma_chunk_index(cells as int, size as int, k + 1);
        }
        assert(out@ =~= chunk_plan(cells as int, workers as int).take(k + 1));
        start = end;
        k = k + 1;
    }
    assert(out@ =~= chunk_plan(cells as int, workers as int));
    out
}

/// At most `workers` chunks are needed.
proof fn lemma_chunk_count(cells: int, workers: int)
    requires
        cells >= 0,
        workers >= 1,
        chunk_size(cells, workers) >= 1,
    ensures
        chunk_count(cells, chunk_size(cells, workers)) <= workers,
{
    let size = chunk_size(cells, workers);
    vstd::arithmetic::div_mod::lemma_fundamental_div_mod(cells - 1, workers);
    vstd::arithmetic::div_mod::lemma_fundamental_div_mod(cells + size - 1, size);
    let q = (cells + size - 1) / size;
    let d = (cells - 1) / workers;
    // cells <= workers * size, so cells + size - 1 < (workers + 1) * size
    assert(q <= workers) by (nonlinear_arith)
        requires
            size * q + (cells + size - 1) % size == cells + size - 1,
            0 <= (cells + size - 1) % size,
            workers * d + (cells - 1) % workers == cells - 1,
            (cells - 1) % workers < workers,
            size == d + 1,
            size >= 1,
            workers >= 1,
    ;
}

/// Chunk `k` starts below `cells` exactly when `k` is below the chunk count.
proof fn lemma_chunk_index(cells: int, size: int, k: int)
    requires
        cells >= 0,
        size >= 1,
        k >= 0,
    ensures
        k < chunk_count(cells, size) <==> k * size < cells,
{
    vstd::arithmetic::div_mod::lemma_fundamental_div_mod(cells + size - 1, size);
    let q = (cells + size - 1) / size;
    let r = (cells + size - 1) % size;
    if k < q {
        assert(k * size < cells) by (nonlinear_arith)
            requires size * q + r == cells + size - 1, 0 <= r < size, k < q, size >= 1, k >= 0;
    } else {
        assert(k * size >= cells) by (nonlinear_arith)
            requires size * q + r == cells + size - 1, 0 <= r < size, k >= q, size >= 1;
    }
}

} // verus!

verus! {

/// How many writes of `ws` name particle `i`.
pub open spec fn occurrences(ws: Seq<(usize, Vec2)>, i: int) -> int
    decreases ws.len(),
{
    if ws.len() == 0 {
        0
    } else {
        occurrences(ws.drop_last(), i) + if ws.last().0 as int == i {
            1int
        } else {
            0int
        }
    }
}

/// The worker that owns particle `i`: the chunk holding its home cell.
pub open spec fn owner(g: Grid, ps: Seq<Particle>, i: int, workers: int) -> int {
    g.home(ps[i].pos) / chunk_size(g.cells@.len() as int, workers)
}

/// The writes of chunks `0 .. m` of `plan`, one chunk after another.
pub open spec fn plan_writes(
    g: Grid,
    cfg: SimConfig,
    types: Seq<ParticleType>,
    ps: Seq<Particle>,
    plan: Seq<(usize, usize)>,
    m: int,
) -> Seq<(usize, Vec2)>
    decreases m,
{
    if m <= 0 {
        seq![]
    } else {
        plan_writes(g, cfg, types, ps, plan, m - 1) + range_writes(
            g,
            cfg,
            types,
            ps,
            plan[m - 1].0 as int,
            plan[m - 1].1 as int,
        )
    }
}

proof fn lemma_occurrences_concat(a: Seq<(usize, Vec2)>, b: Seq<(usize, Vec2)>, i: int)
    ensures
        occurrences(a + b, i) == occurrences(a, i) + occurrences(b, i),
    decreases b.len(),
{
    if b.len() > 0 {
        lemma_occurrences_concat(a, b.drop_last(), i);
        assert((a + b).drop_last() =~= a + b.drop_last());
    }
}

proof fn lemma_cell_occurrences(g: Grid, cfg: SimConfig, types: Seq<ParticleType>, ps: Seq<Particle>, c: int, m: int, i: int)
    requires
        0 <= m <= ps.len(),
        ps.len() <= usize::MAX,
        0 <= i < ps.len(),
    ensures
        occurrences(
            g.members(positions(ps), c, m).map_values(
                |j: usize| (j, velocity_after(g, cfg, types, ps, j as int)),
            ),
            i,
        ) == if i < m && g.home(ps[i].pos) == c {
            1int
        } else {
            0int
        },
    decreases m,
{
    if m > 0 {
        lemma_cell_occurrences(g, cfg, types, ps, c, m - 1, i);
        let f = |j: usize| (j, velocity_after(g, cfg, types, ps, j as int));
        let prev = g.members(positions(ps), c, m - 1);
        assert(positions(ps)[m - 1] == ps[m - 1].pos);
        assert(positions(ps)[i] == ps[i].pos);
        if g.home(ps[m - 1].pos) == c {
            assert(prev.push((m - 1) as usize).map_values(f).drop_last() =~= prev.map_values(f));
        }
    }
}

/// The writes of cells `lo .. hi` name particle `i` once if its home cell
/// is in that range, and never otherwise.
pub proof fn lemma_range_occurrences(g: Grid, cfg: SimConfig, types: Seq<ParticleType>, ps: Seq<Particle>, lo: int, hi: int, i: int)
    requires
        ps.len() <= usize::MAX,
        0 <= i < ps.len(),
        lo <= hi,
    ensures
        occurrences(range_writes(g, cfg, types, ps, lo, hi), i) == if lo <= g.home(ps[i].pos) < hi {
            1int
        } else {
            0int
        },
    decreases hi - lo,
{
    if hi > lo {
        lemma_range_occurrences(g, cfg, types, ps, lo, hi - 1, i);
        lemma_occurrences_concat(
            range_writes(g, cfg, types, ps, lo, hi - 1),
            crate::particle::cell_writes(g, cfg, types, ps, hi - 1),
            i,
        );
        lemma_cell_occurrences(g, cfg, types, ps, hi - 1, ps.len() as int, i);
    }
}

/// Chunk `k` of the plan for `cells` cells covers cells
/// `k * size .. min((k + 1) * size, cells)`, which lie inside `0 .. cells`.
proof fn lemma_plan_entry(cells: int, workers: int, k: int)
    requires
        0 < cells <= 0x10_0000,
        workers >= 1,
        0 <= k < chunk_plan(cells, workers).len(),
    ensures
        chunk_size(cells, workers) >= 1,
        chunk_plan(cells, workers)[k].0 as int == k * chunk_size(cells, workers),
        chunk_plan(cells, workers)[k].1 as int == if (k + 1) * chunk_size(cells, workers) < cells {
            (k + 1) * chunk_size(cells, workers)
        } else {
            cells
        },
        0 <= chunk_plan(cells, workers)[k].0 < chunk_plan(cells, workers)[k].1 <= cells,
{
    let size = chunk_size(cells, workers);
    vstd::arithmetic::div_mod::lemma_div_pos_is_pos(cells - 1, workers);
    lemma_chunk_index(cells, size, k);
    assert(k * size >= 0) by (nonlinear_arith)
        requires k >= 0, size >= 1;
    assert((k + 1) * size == k * size + size) by (nonlinear_arith);
}

/// Partition of the force phase: with the cells split by `chunk_plan`,
/// every worker writes only particles of the store, every particle is
/// written by exactly one worker (its owner), and by that worker exactly
/// once.
pub proof fn lemma_partition_disjoint(g: Grid, cfg: SimConfig, types: Seq<ParticleType>, ps: Seq<Particle>, workers: int)
    requires
        g.wf(),
        ps.len() <= usize::MAX,
        forall|i: int| 0 <= i < ps.len() ==> g.contains(#[trigger] ps[i].pos),
        workers >= 1,
    ensures
        ({
            let plan = chunk_plan(g.cells@.len() as int, workers);
            &&& forall|k: int|
                0 <= k < plan.len() ==> writes_in_range(
                    ps,
                    #[trigger] range_writes(g, cfg, types, ps, plan[k].0 as int, plan[k].1 as int),
                )
            &&& forall|i: int| 0 <= i < ps.len() ==> 0 <= #[trigger] owner(g, ps, i, workers) < plan.len()
            &&& forall|i: int, k: int|
                0 <= i < ps.len() && 0 <= k < plan.len() ==> #[trigger] occurrences(
                    range_writes(g, cfg, types, ps, plan[k].0 as int, plan[k].1 as int),
                    i,
                ) == if k == owner(g, ps, i, workers) {
                    1int
                } else {
                    0int
                }
        }),
{
    let cells = g.cells@.len() as int;
    let plan = chunk_plan(cells, workers);
    let size = chunk_size(cells, workers);
    assert(cells == g.columns() * g.rows());
    assert(cells >= 1 && cells <= 0x10_0000) by (nonlinear_arith)
        requires cells == g.columns() * g.rows(), 1 <= g.columns() <= 1024, 1 <= g.rows() <= 1024;
    assert forall|k: int| 0 <= k < plan.len() implies writes_in_range(
        ps,
        #[trigger] range_writes(g, cfg, types, ps, plan[k].0 as int, plan[k].1 as int),
    ) by {
        lemma_range_writes(g, cfg, types, ps, plan[k].0 as int, plan[k].1 as int);
    }
    assert forall|i: int, k: int| 0 <= i < ps.len() && 0 <= k < plan.len() implies 0 <= #[trigger] owner(
        g,
        ps,
        i,
        workers,
    ) < plan.len() && #[trigger] occurrences(
        range_writes(g, cfg, types, ps, plan[k].0 as int, plan[k].1 as int),
        i,
    ) == if k == owner(g, ps, i, workers) {
        1int
    } else {
        0int
    } by {
        lemma_home_in_grid(g, ps[i].pos);
        lemma_plan_entry(cells, workers, k);
        let h = g.home(ps[i].pos);
        lemma_owner(cells, size, h, k);
        lemma_range_occurrences(g, cfg, types, ps, plan[k].0 as int, plan[k].1 as int, i);
    }
    assert forall|i: int| 0 <= i < ps.len() implies 0 <= #[trigger] owner(g, ps, i, workers) < plan.len() by {
        lemma_home_in_grid(g, ps[i].pos);
        vstd::arithmetic::div_mod::lemma_div_pos_is_pos(cells - 1, workers);
        let h = g.home(ps[i].pos);
        lemma_owner(cells, size, h, 0);
    }
}

/// Cell `h` lies in chunk `k` exactly when `k` is `h / size`, and that
/// chunk exists.
proof fn lemma_owner(cells: int, size: int, h: int, k: int)
    requires
        size >= 1,
        0 <= h < cells,
        k >= 0,
    ensures
        (k * size <= h && h < (k + 1) * size) <==> k == h / size,
        0 <= h / size < chunk_count(cells, size),
{
    vstd::arithmetic::div_mod::lemma_fundamental_div_mod(h, size);
    let q = h / size;
    let r = h % size;
    if k < q {
        assert((k + 1) * size <= h) by (nonlinear_arith)
            requires size * q + r == h, 0 <= r, k + 1 <= q, size >= 1;
    } else if k > q {
        assert(k * size > h) by (nonlinear_arith)
            requires size * q + r == h, r < size, k >= q + 1, size >= 1;
    } else {
        assert(k * size <= h && h < (k + 1) * size) by (nonlinear_arith)
            requires size * q + r == h, 0 <= r < size, k == q;
    }
    vstd::arithmetic::div_mod::lemma_div_pos_is_pos(h, size);
    assert(q * size <= h) by (nonlinear_arith)
        requires size * q + r == h, 0 <= r;
    lemma_chunk_index(cells, size, q);
}

/// A position of the domain has its home among the grid's cells.
pub proof fn lemma_home_in_grid(g: Grid, p: Vec2)
    requires
        g.wf(),
        g.contains(p),
    ensures
        0 <= g.home(p) < g.cells@.len(),
{
    crate::grid::lemma_axis_index(p.x as int, g.columns(), g.width as int);
    crate::grid::lemma_axis_index(p.y as int, g.rows(), g.height as int);
    crate::grid::lemma_cell_index(g.column_of(p.x as int), g.row_of(p.y as int), g.columns(), g.rows());
}

} // verus!

verus! {

/// `ps` after the workers' write sets for chunks `0 .. m` of `plan` were
/// carried out one chunk after another.
pub open spec fn apply_chunks(
    g: Grid,
    cfg: SimConfig,
    types: Seq<ParticleType>,
    ps: Seq<Particle>,
    plan: Seq<(usize, usize)>,
    m: int,
) -> Seq<Particle>
    decreases m,
{
    if m <= 0 {
        ps
    } else {
        with_writes(
            apply_chunks(g, cfg, types, ps, plan, m - 1),
            range_writes(g, cfg, types, ps, plan[m - 1].0 as int, plan[m - 1].1 as int),
        )
    }
}

proof fn lemma_with_writes_concat(ps: Seq<Particle>, a: Seq<(usize, Vec2)>, b: Seq<(usize, Vec2)>)
    ensures
        with_writes(ps, a + b) == with_writes(with_writes(ps, a), b),
    decreases b.len(),
{
    if b.len() == 0 {
        assert(a + b =~= a);
    } else {
        lemma_with_writes_concat(ps, a, b.drop_last());
        assert((a + b).drop_last() =~= a + b.drop_last());
        assert((a + b).last() == b.last());
    }
}

proof fn lemma_range_writes_concat(g: Grid, cfg: SimConfig, types: Seq<ParticleType>, ps: Seq<Particle>, a: int, b: int, c: int)
    requires
        a <= b <= c,
    ensures
        range_writes(g, cfg, types, ps, a, b) + range_writes(g, cfg, types, ps, b, c) == range_writes(g, cfg, types, ps, a, c),
    decreases c - b,
{
    if c == b {
        assert(range_writes(g, cfg, types, ps, a, b) + range_writes(g, cfg, types, ps, b, c)
            =~= range_writes(g, cfg, types, ps, a, b));
    } else {
        lemma_range_writes_concat(g, cfg, types, ps, a, b, c - 1);
        let x = range_writes(g, cfg, types, ps, a, b);
        let y = range_writes(g, cfg, types, ps, b, c - 1);
        let z = crate::particle::cell_writes(g, cfg, types, ps, c - 1);
        assert(x + (y + z) =~= (x + y) + z);
    }
}

/// Chunks `0 .. m` together cover cells `0 .. end`, `end` being where chunk
/// `m - 1` stops; their writes in plan order are those of that cell range.
proof fn lemma_plan_prefix(g: Grid, cfg: SimConfig, types: Seq<ParticleType>, ps: Seq<Particle>, cells: int, workers: int, m: int)
    requires
        0 < cells <= 0x10_0000,
        workers >= 1,
        0 <= m <= chunk_plan(cells, workers).len(),
    ensures
        ({
            let plan = chunk_plan(cells, workers);
            let end = if m == 0 {
                0
            } else {
                plan[m - 1].1 as int
            };
            &&& apply_chunks(g, cfg, types, ps, plan, m) == with_writes(ps, range_writes(g, cfg, types, ps, 0, end))
            &&& plan_writes(g, cfg, types, ps, plan, m) == range_writes(g, cfg, types, ps, 0, end)
        }),
    decreases m,
{
    let plan = chunk_plan(cells, workers);
    if m > 0 {
        lemma_plan_prefix(g, cfg, types, ps, cells, workers, m - 1);
        lemma_plan_entry(cells, workers, m - 1);
        let start = if m == 1 {
            0
        } else {
            plan[m - 2].1 as int
        };
        if m > 1 {
            lemma_plan_entry(cells, workers, m - 2);
        }
        assert(start == plan[m - 1].0 as int);
        lemma_range_writes_concat(g, cfg, types, ps, 0, start, plan[m - 1].1 as int);
        lemma_with_writes_concat(
            ps,
            range_writes(g, cfg, types, ps, 0, start),
            range_writes(g, cfg, types, ps, start, plan[m - 1].1 as int),
        );
    }
}

/// The force phase split across workers gives the same particles as the
/// single-threaded one: whatever the number of workers, carrying out the
/// write sets of the chunks of `chunk_plan` one after another (or their
/// concatenation at once) yields exactly `after_forces`, as does the write
/// set of all cells in one piece.
pub proof fn lemma_parallel_matches_sequential(g: Grid, cfg: SimConfig, types: Seq<ParticleType>, ps: Seq<Particle>, workers: int)
    requires
        g.wf(),
        ps.len() <= usize::MAX,
        forall|i: int| 0 <= i < ps.len() ==> g.contains(#[trigger] ps[i].pos),
        workers >= 1,
    ensures
        ({
            let cells = g.cells@.len() as int;
            let plan = chunk_plan(cells, workers);
            &&& plan_writes(g, cfg, types, ps, plan, plan.len() as int) == range_writes(g, cfg, types, ps, 0, cells)
            &&& apply_chunks(g, cfg, types, ps, plan, plan.len() as int) == after_forces(g, cfg, types, ps)
            &&& with_writes(ps, range_writes(g, cfg, types, ps, 0, cells)) == after_forces(g, cfg, types, ps)
        }),
{
    let cells = g.cells@.len() as int;
    let plan = chunk_plan(cells, workers);
    let size = chunk_size(cells, workers);
    assert(cells == g.columns() * g.rows());
    assert(cells >= 1 && cells <= 0x10_0000) by (nonlinear_arith)
        requires cells == g.columns() * g.rows(), 1 <= g.columns() <= 1024, 1 <= g.rows() <= 1024;
    vstd::arithmetic::div_mod::lemma_div_pos_is_pos(cells - 1, workers);
    lemma_owner(cells, size, 0, 0);
    let m = plan.len() as int;
    lemma_plan_entry(cells, workers, m - 1);
    lemma_chunk_index(cells, size, m);
    assert((m - 1 + 1) * size == m * size);
    assert(plan[m - 1].1 as int == cells);
    lemma_plan_prefix(g, cfg, types, ps, cells, workers, m);
    lemma_range_writes_cover(g, cfg, types, ps, cells);
    lemma_apply_own_writes(g, cfg, types, ps, range_writes(g, cfg, types, ps, 0, cells));
}

} // verus!
