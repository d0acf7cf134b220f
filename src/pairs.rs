//! The force phase seen without the grid: the grid-bucketed sum of a
//! particle's neighbourhood equals the sum over every other particle.
use vstd::prelude::*;
use crate::config::SimConfig;
use crate::fixed::{saturate, Vec2};
use crate::force::{lemma_cutoff_locality, min_image};
use crate::grid::{cells_along, Grid};
use crate::particle::{
    area_sum, cell_sum, coefficient, lemma_within_cutoff_is_neighbor, moved, neighbor_span,
    neighborhood_force, pair_force, positions, row_sum, tick, velocity_after, Particle,
};
use crate::types::ParticleType;

verus! {

/// Sum of the forces on particle `i` from the particles `j < m` with
/// `keep(j)`, itself excluded.
pub open spec fn masked_sum(
    cfg: SimConfig,
    types: Seq<ParticleType>,
    ps: Seq<Particle>,
    i: int,
    m: int,
    keep: spec_fn(int) -> bool,
) -> (int, int)
    decreases m,
{
    if m <= 0 {
        (0, 0)
    } else {
        let rest = masked_sum(cfg, types, ps, i, m - 1, keep);
        if keep(m - 1) && m - 1 != i {
            let f = pair_force(cfg, types, ps, i, m - 1);
            (rest.0 + f.0, rest.1 + f.1)
        } else {
            rest
        }
    }
}

/// Sum of the forces on particle `i` from every other particle.
pub open spec fn all_pairs_force(cfg: SimConfig, types: Seq<ParticleType>, ps: Seq<Particle>, i: int) -> (int, int) {
    masked_sum(cfg, types, ps, i, ps.len() as int, |j: int| true)
}

proof fn lemma_masked_split(
    cfg: SimConfig,
    types: Seq<ParticleType>,
    ps: Seq<Particle>,
    i: int,
    m: int,
    p: spec_fn(int) -> bool,
    q: spec_fn(int) -> bool,
    both: spec_fn(int) -> bool,
)
    requires
        forall|j: int| 0 <= j < m ==> !(#[trigger] p(j) && q(j)),
        forall|j: int| 0 <= j < m ==> #[trigger] both(j) == (p(j) || q(j)),
    ensures
        masked_sum(cfg, types, ps, i, m, both).0 == masked_sum(cfg, types, ps, i, m, p).0 + masked_sum(cfg, types, ps, i, m, q).0,
        masked_sum(cfg, types, ps, i, m, both).1 == masked_sum(cfg, types, ps, i, m, p).1 + masked_sum(cfg, types, ps, i, m, q).1,
    decreases m,
{
    if m > 0 {
        lemma_masked_split(cfg, types, ps, i, m - 1, p, q, both);
    }
}

proof fn lemma_masked_ext(
    cfg: SimConfig,
    types: Seq<ParticleType>,
    ps: Seq<Particle>,
    i: int,
    m: int,
    p: spec_fn(int) -> bool,
    q: spec_fn(int) -> bool,
)
    requires
        forall|j: int| 0 <= j < m ==> #[trigger] p(j) == q(j),
    ensures
        masked_sum(cfg, types, ps, i, m, p) == masked_sum(cfg, types, ps, i, m, q),
    decreases m,
{
    if m > 0 {
        lemma_masked_ext(cfg, types, ps, i, m - 1, p, q);
    }
}

/// Leaving out particles that exert no force changes nothing.
proof fn lemma_masked_full(
    cfg: SimConfig,
    types: Seq<ParticleType>,
    ps: Seq<Particle>,
    i: int,
    m: int,
    p: spec_fn(int) -> bool,
)
    requires
        forall|j: int| 0 <= j < m && !p(j) && j != i ==> #[trigger] pair_force(cfg, types, ps, i, j) == (0int, 0int),
    ensures
        masked_sum(cfg, types, ps, i, m, p) == masked_sum(cfg, types, ps, i, m, |j: int| true),
    decreases m,
{
    if m > 0 {
        lemma_masked_full(cfg, types, ps, i, m - 1, p);
    }
}

/// The sum over one bucket is the masked sum over the particles whose home
/// is that cell.
proof fn lemma_cell_as_mask(
    g: Grid,
    cfg: SimConfig,
    types: Seq<ParticleType>,
    ps: Seq<Particle>,
    i: int,
    c: int,
    m: int,
)
    requires
        0 <= m <= ps.len(),
        ps.len() <= usize::MAX,
    ensures
        cell_sum(cfg, types, ps, i, g.members(positions(ps), c, m)) == masked_sum(
            cfg,
            types,
            ps,
            i,
            m,
            |j: int| g.home(ps[j].pos) == c,
        ),
    decreases m,
{
    if m > 0 {
        lemma_cell_as_mask(g, cfg, types, ps, i, c, m - 1);
        assert(positions(ps)[m - 1] == ps[m - 1].pos);
        let prev = g.members(positions(ps), c, m - 1);
        if g.home(ps[m - 1].pos) == c {
            assert(prev.push((m - 1) as usize).drop_last() == prev);
        }
    }
}

/// Column and row of the cell holding each particle of the domain.
pub open spec fn column_index(g: Grid, ps: Seq<Particle>, j: int) -> int {
    g.column_of(ps[j].pos.x as int)
}

pub open spec fn row_index(g: Grid, ps: Seq<Particle>, j: int) -> int {
    g.row_of(ps[j].pos.y as int)
}

/// Every particle lies in the grid's domain.
pub open spec fn all_inside(g: Grid, ps: Seq<Particle>) -> bool {
    forall|j: int| 0 <= j < ps.len() ==> g.contains(#[trigger] ps[j].pos)
}

proof fn lemma_home_parts(g: Grid, ps: Seq<Particle>, j: int, row: int, col: int)
    requires
        g.wf(),
        all_inside(g, ps),
        0 <= j < ps.len(),
        0 <= col < g.columns(),
    ensures
        0 <= column_index(g, ps, j) < g.columns(),
        0 <= row_index(g, ps, j) < g.rows(),
        (g.home(ps[j].pos) == row * g.columns() + col) <==> (row_index(g, ps, j) == row
            && column_index(g, ps, j) == col),
{
    let p = ps[j].pos;
    assert(g.contains(p));
    crate::grid::lemma_axis_index(p.x as int, g.columns(), g.width as int);
    crate::grid::lemma_axis_index(p.y as int, g.rows(), g.height as int);
    let cx = column_index(g, ps, j);
    let cy = row_index(g, ps, j);
    crate::grid::lemma_cell_index(cx, cy, g.columns(), g.rows());
    if g.home(p) == row * g.columns() + col {
        vstd::arithmetic::div_mod::lemma_fundamental_div_mod_converse(
            row * g.columns() + col,
            g.columns(),
            row,
            col,
        );
    }
}

/// The sum over a row of cells whose distinct columns are `cs`.
proof fn lemma_row_as_mask(
    g: Grid,
    cfg: SimConfig,
    types: Seq<ParticleType>,
    ps: Seq<Particle>,
    i: int,
    row: int,
    cs: Seq<int>,
)
    requires
        g.wf(),
        all_inside(g, ps),
        ps.len() <= usize::MAX,
        cs.no_duplicates(),
        forall|k: int| 0 <= k < cs.len() ==> 0 <= #[trigger] cs[k] < g.columns(),
    ensures
        row_sum(g, cfg, types, ps, i, row, cs) == masked_sum(
            cfg,
            types,
            ps,
            i,
            ps.len() as int,
            |j: int| row_index(g, ps, j) == row && cs.contains(column_index(g, ps, j)),
        ),
    decreases cs.len(),
{
    let n = ps.len() as int;
    let keep = |j: int| row_index(g, ps, j) == row && cs.contains(column_index(g, ps, j));
    if cs.len() == 0 {
        lemma_masked_ext(cfg, types, ps, i, n, keep, |j: int| false);
        lemma_masked_none(cfg, types, ps, i, n);
    } else {
        let rest = cs.drop_last();
        let c = cs.last();
        assert forall|k: int| 0 <= k < rest.len() implies 0 <= #[trigger] rest[k] < g.columns() by {
            assert(rest[k] == cs[k]);
        }
        assert(rest.no_duplicates()) by {
            assert forall|a: int, b: int| 0 <= a < rest.len() && 0 <= b < rest.len() && a != b implies rest[a] != rest[b] by {
                assert(rest[a] == cs[a] && rest[b] == cs[b]);
            }
        }
        lemma_row_as_mask(g, cfg, types, ps, i, row, rest);
        lemma_cell_as_mask(g, cfg, types, ps, i, row * g.columns() + c, n);
        let p = |j: int| row_index(g, ps, j) == row && rest.contains(column_index(g, ps, j));
        let home_c = |j: int| g.home(ps[j].pos) == row * g.columns() + c;
        let q = |j: int| row_index(g, ps, j) == row && column_index(g, ps, j) == c;
        assert(0 <= c < g.columns()) by {
            assert(cs[cs.len() - 1] == c);
        }
        assert forall|j: int| 0 <= j < n implies #[trigger] home_c(j) == q(j) by {
            lemma_home_parts(g, ps, j, row, c);
        }
        lemma_masked_ext(cfg, types, ps, i, n, home_c, q);
        assert forall|j: int| 0 <= j < n implies !(#[trigger] p(j) && q(j)) by {
            if p(j) && q(j) {
                let k = choose|k: int| 0 <= k < rest.len() && rest[k] == column_index(g, ps, j);
                assert(cs[k] == cs[cs.len() - 1]);
            }
        }
        assert forall|j: int| 0 <= j < n implies #[trigger] keep(j) == (p(j) || q(j)) by {
            let col = column_index(g, ps, j);
            if cs.contains(col) && col != c {
                let k = choose|k: int| 0 <= k < cs.len() && cs[k] == col;
                assert(rest[k] == col);
            }
            if rest.contains(col) {
                let k = choose|k: int| 0 <= k < rest.len() && rest[k] == col;
                assert(cs[k] == col);
            }
            if col == c {
                assert(cs[cs.len() - 1] == col);
            }
        }
        lemma_masked_split(cfg, types, ps, i, n, p, q, keep);
    }
}

proof fn lemma_masked_none(cfg: SimConfig, types: Seq<ParticleType>, ps: Seq<Particle>, i: int, m: int)
    ensures
        masked_sum(cfg, types, ps, i, m, |j: int| false) == (0int, 0int),
    decreases m,
{
    if m > 0 {
        lemma_masked_none(cfg, types, ps, i, m - 1);
    }
}


/// The sum over the cells of the distinct rows `rs` and columns `cs`.
proof fn lemma_area_as_mask(
    g: Grid,
    cfg: SimConfig,
    types: Seq<ParticleType>,
    ps: Seq<Particle>,
    i: int,
    rs: Seq<int>,
    cs: Seq<int>,
)
    requires
        g.wf(),
        all_inside(g, ps),
        ps.len() <= usize::MAX,
        rs.no_duplicates(),
        cs.no_duplicates(),
        forall|k: int| 0 <= k < cs.len() ==> 0 <= #[trigger] cs[k] < g.columns(),
    ensures
        area_sum(g, cfg, types, ps, i, rs, cs) == masked_sum(
            cfg,
            types,
            ps,
            i,
            ps.len() as int,
            |j: int| rs.contains(row_index(g, ps, j)) && cs.contains(column_index(g, ps, j)),
        ),
    decreases rs.len(),
{
    let n = ps.len() as int;
    let keep = |j: int| rs.contains(row_index(g, ps, j)) && cs.contains(column_index(g, ps, j));
    if rs.len() == 0 {
        lemma_masked_ext(cfg, types, ps, i, n, keep, |j: int| false);
        lemma_masked_none(cfg, types, ps, i, n);
    } else {
        let rest = rs.drop_last();
        let r = rs.last();
        assert(rest.no_duplicates()) by {
            assert forall|a: int, b: int| 0 <= a < rest.len() && 0 <= b < rest.len() && a != b implies rest[a] != rest[b] by {
                assert(rest[a] == rs[a] && rest[b] == rs[b]);
            }
        }
        lemma_area_as_mask(g, cfg, types, ps, i, rest, cs);
        lemma_row_as_mask(g, cfg, types, ps, i, r, cs);
        let p = |j: int| rest.contains(row_index(g, ps, j)) && cs.contains(column_index(g, ps, j));
        let q = |j: int| row_index(g, ps, j) == r && cs.contains(column_index(g, ps, j));
        assert forall|j: int| 0 <= j < n implies !(#[trigger] p(j) && q(j)) by {
            if p(j) && q(j) {
                let k = choose|k: int| 0 <= k < rest.len() && rest[k] == row_index(g, ps, j);
                assert(rs[k] == rs[rs.len() - 1]);
            }
        }
        assert forall|j: int| 0 <= j < n implies #[trigger] keep(j) == (p(j) || q(j)) by {
            let row = row_index(g, ps, j);
            if rs.contains(row) && row != r {
                let k = choose|k: int| 0 <= k < rs.len() && rs[k] == row;
                assert(rest[k] == row);
            }
            if rest.contains(row) {
                let k = choose|k: int| 0 <= k < rest.len() && rest[k] == row;
                assert(rs[k] == row);
            }
            if row == r {
                assert(rs[rs.len() - 1] == row);
            }
        }
        lemma_masked_split(cfg, types, ps, i, n, p, q, keep);
    }
}

/// The neighbourhood along an axis lists distinct cells of the axis.
proof fn lemma_span_distinct(c: int, n: int)
    requires
        0 <= c < n,
    ensures
        neighbor_span(c, n).no_duplicates(),
        forall|k: int| 0 <= k < neighbor_span(c, n).len() ==> 0 <= #[trigger] neighbor_span(c, n)[k] < n,
{
    let sp = neighbor_span(c, n);
    if n >= 3 {
        let before = if c == 0 {
            n - 1
        } else {
            c - 1
        };
        let after = if c == n - 1 {
            0
        } else {
            c + 1
        };
        if c == 0 {
            vstd::arithmetic::div_mod::lemma_fundamental_div_mod_converse(c + n - 1, n, 0, n - 1);
        } else {
            vstd::arithmetic::div_mod::lemma_fundamental_div_mod_converse(c + n - 1, n, 1, c - 1);
        }
        if c == n - 1 {
            vstd::arithmetic::div_mod::lemma_fundamental_div_mod_converse(c + 1, n, 1, 0);
        } else {
            vstd::arithmetic::div_mod::lemma_fundamental_div_mod_converse(c + 1, n, 0, c + 1);
        }
        assert(sp =~= seq![before, c, after]);
    }
}

/// The grid is only a shortcut: for a grid built for the configuration's
/// cutoff over particles of the domain, the force on particle `i` summed
/// over the cells around its home equals the sum of the forces of every
/// other particle, so a tick's velocity is the all-pairs velocity.
pub proof fn lemma_grid_matches_all_pairs(g: Grid, cfg: SimConfig, types: Seq<ParticleType>, ps: Seq<Particle>, i: int)
    requires
        cfg.valid(),
        g.wf(),
        g.width == cfg.width,
        g.height == cfg.height,
        g.columns() == cells_along(cfg.width as int, cfg.max_distance as int),
        g.rows() == cells_along(cfg.height as int, cfg.max_distance as int),
        all_inside(g, ps),
        ps.len() <= usize::MAX,
        0 <= i < ps.len(),
    ensures
        neighborhood_force(g, cfg, types, ps, i) == all_pairs_force(cfg, types, ps, i),
        velocity_after(g, cfg, types, ps, i) == (Vec2 {
            x: saturate(ps[i].vel.x + all_pairs_force(cfg, types, ps, i).0) as i64,
            y: saturate(ps[i].vel.y + all_pairs_force(cfg, types, ps, i).1) as i64,
        }),
{
    let n = ps.len() as int;
    let pi = ps[i].pos;
    assert(g.contains(pi));
    crate::grid::lemma_axis_index(pi.x as int, g.columns(), g.width as int);
    crate::grid::lemma_axis_index(pi.y as int, g.rows(), g.height as int);
    let rs = neighbor_span(g.row_of(pi.y as int), g.rows());
    let cs = neighbor_span(g.column_of(pi.x as int), g.columns());
    lemma_span_distinct(g.row_of(pi.y as int), g.rows());
    lemma_span_distinct(g.column_of(pi.x as int), g.columns());
    lemma_area_as_mask(g, cfg, types, ps, i, rs, cs);
    let keep = |j: int| rs.contains(row_index(g, ps, j)) && cs.contains(column_index(g, ps, j));
    assert forall|j: int| 0 <= j < n && !keep(j) && j != i implies #[trigger] pair_force(cfg, types, ps, i, j)
        == (0int, 0int) by {
        let q = ps[j].pos;
        assert(g.contains(q));
        let dx = min_image(q.x - pi.x, cfg.width as int);
        let dy = min_image(q.y - pi.y, cfg.height as int);
        if dx * dx + dy * dy < cfg.max_distance * cfg.max_distance {
            lemma_within_cutoff_is_neighbor(g, cfg, pi, q);
        } else {
            lemma_cutoff_locality(cfg, coefficient(types, ps, i, j), dx, dy);
        }
    }
    lemma_masked_full(cfg, types, ps, i, n, keep);
}


/// One tick as the particle-life rule states it, without any grid: every
/// particle's velocity gains the forces of all other particles (limited to
/// the range of `i64`), then the particle moves, wraps into the domain and
/// loses velocity to friction.
pub open spec fn all_pairs_tick(cfg: SimConfig, types: Seq<ParticleType>, ps: Seq<Particle>) -> Seq<Particle> {
    Seq::new(
        ps.len(),
        |i: int|
            moved(
                Particle {
                    pos: ps[i].pos,
                    vel: Vec2 {
                        x: saturate(ps[i].vel.x + all_pairs_force(cfg, types, ps, i).0) as i64,
                        y: saturate(ps[i].vel.y + all_pairs_force(cfg, types, ps, i).1) as i64,
                    },
                    type_id: ps[i].type_id,
                },
                cfg,
            ),
    )
}

/// The grid-based tick is the all-pairs tick.
pub proof fn lemma_tick_is_all_pairs(g: Grid, cfg: SimConfig, types: Seq<ParticleType>, ps: Seq<Particle>)
    requires
        cfg.valid(),
        g.wf(),
        g.width == cfg.width,
        g.height == cfg.height,
        g.columns() == cells_along(cfg.width as int, cfg.max_distance as int),
        g.rows() == cells_along(cfg.height as int, cfg.max_distance as int),
        all_inside(g, ps),
        ps.len() <= usize::MAX,
    ensures
        tick(g, cfg, types, ps) == all_pairs_tick(cfg, types, ps),
{
    assert forall|i: int| 0 <= i < ps.len() implies #[trigger] tick(g, cfg, types, ps)[i] == all_pairs_tick(cfg, types, ps)[i] by {
        lemma_grid_matches_all_pairs(g, cfg, types, ps, i);
    }
    assert(tick(g, cfg, types, ps) =~= all_pairs_tick(cfg, types, ps));
}

} // verus!
