//! The particle store and one tick of the simulation: grid rebuild, force
//! phase over the grid's cells, and integration.
use vstd::prelude::*;
use crate::config::{SimConfig, EXTENT_LIMIT, FORCE_LIMIT};
use crate::fixed::{abs, saturate, trunc_div, Vec2, ONE};
use crate::force::{force_between, force_on, lemma_min_image_bound, min_image, wrap_displacement};
use crate::grid::{cells_along, Grid, AXIS_CELL_LIMIT};
use crate::pairs::{all_pairs_tick, lemma_tick_is_all_pairs};
use crate::types::{table_wf, ParticleType};

verus! {

/// A point particle: position, velocity and index of its type.
#[derive(Clone, Copy, Debug, PartialEq, Eq, Structural)]
pub struct Particle {
    pub pos: Vec2,
    pub vel: Vec2,
    pub type_id: usize,
}

impl Particle {
    pub fn new(pos: [i64; 2], vel: [i64; 2], type_id: usize) -> (r: Particle)
        ensures
            r.pos == (Vec2 { x: pos[0], y: pos[1] }),
            r.vel == (Vec2 { x: vel[0], y: vel[1] }),
            r.type_id == type_id,
    {
        Particle { pos: Vec2 { x: pos[0], y: pos[1] }, vel: Vec2 { x: vel[0], y: vel[1] }, type_id }
    }
}

pub open spec fn positions(ps: Seq<Particle>) -> Seq<Vec2> {
    ps.map_values(|p: Particle| p.pos)
}

/// The store of all particles, indexed by position in `particles`, with the
/// grid that buckets them.
pub struct Particles {
    particles: Vec<Particle>,
    grid: Grid,
}

impl Particles {
    pub closed spec fn view(&self) -> Seq<Particle> {
        self.particles@
    }

    pub closed spec fn spatial(&self) -> Grid {
        self.grid
    }

    pub open spec fn width(&self) -> int {
        self.spatial().width as int
    }

    pub open spec fn height(&self) -> int {
        self.spatial().height as int
    }

    /// The grid is well formed and every particle lies inside the domain.
    pub open spec fn wf(&self) -> bool {
        &&& self.spatial().wf()
        &&& forall|i: int| 0 <= i < self@.len() ==> self.spatial().contains(#[trigger] self@[i].pos)
    }

    /// The grid buckets the particles at their current positions.
    pub open spec fn indexed(&self) -> bool {
        self.spatial().indexes(positions(self@))
    }

    /// The configuration describes this store's domain.
    pub open spec fn fits(&self, cfg: SimConfig) -> bool {
        cfg.valid() && cfg.width == self.width() && cfg.height == self.height()
    }

    /// An empty store over the configuration's domain.
    pub fn new(cfg: &SimConfig) -> (r: Particles)
        requires
            cfg.valid(),
        ensures
            r.wf(),
            r.indexed(),
            r@.len() == 0,
            r.fits(*cfg),
            r.spatial().columns() == cells_along(cfg.width as int, cfg.max_distance as int),
            r.spatial().rows() == cells_along(cfg.height as int, cfg.max_distance as int),
    {
        let grid = Grid::new(cfg.width, cfg.height, cfg.max_distance);
        let r = Particles { particles: Vec::new(), grid };
        assert forall|c: int| 0 <= c < r.grid.cells@.len() implies (
        #[trigger] r.grid.cells@[c]).particles@ == r.grid.members(positions(r@), c, 0) by {
            assert(r.grid.cells@[c].particles@ =~= seq![]);
        }
        r
    }

    pub fn len(&self) -> (r: usize)
        ensures
            r == self@.len(),
    {
        self.particles.len()
    }

    /// The grid, as last built.
    pub fn grid(&self) -> (r: &Grid)
        ensures
            *r == self.spatial(),
    {
        &self.grid
    }

    /// A copy of every particle, in index order.
    pub fn snapshot(&self) -> (r: Vec<Particle>)
        ensures
            r@ == self@,
    {
        let mut out: Vec<Particle> = Vec::new();
        let mut i: usize = 0;
        while i < self.particles.len()
            invariant
                i <= self.particles@.len(),
                out@ == self.particles@.take(i as int),
            decreases self.particles@.len() - i,
        {
            out.push(self.particles[i]);
            assert(out@ =~= self.particles@.take(i + 1));
            i = i + 1;
        }
        assert(self.particles@.take(i as int) =~= self.particles@);
        out
    }

    /// The particle with index `i`.
    pub fn get(&self, i: usize) -> (r: Particle)
        requires
            i < self@.len(),
        ensures
            r == self@[i as int],
    {
        self.particles[i]
    }

    /// Appends a particle, placing it in the grid too.
    pub fn add_particle(&mut self, particle: Particle)
        requires
            old(self).wf(),
            old(self).spatial().contains(particle.pos),
            old(self)@.len() < usize::MAX,
        ensures
            final(self).wf(),
            final(self)@ == old(self)@.push(particle),
            final(self).width() == old(self).width(),
            final(self).height() == old(self).height(),
            final(self).spatial().shape == old(self).spatial().shape,
            old(self).indexed() ==> final(self).indexed(),
    {
        let ghost g0 = self.grid;
        let n = self.particles.len();
        self.grid.insert(n, particle.pos);
        self.particles.push(particle);
        proof {
            let ps = positions(self.particles@);
            assert(ps.drop_last() =~= positions(old(self).particles@));
            assert(ps[n as int] == particle.pos);
            if old(self).indexed() {
                assert forall|c: int| 0 <= c < self.grid.cells@.len() implies (
                #[trigger] self.grid.cells@[c]).particles@ == self.grid.members(
                    ps,
                    c,
                    ps.len() as int,
                ) by {
                    assert(self.grid.buckets()[c] == self.grid.cells@[c].particles@);
                    assert(g0.buckets()[c] == g0.cells@[c].particles@);
                    lemma_members_prefix(g0, positions(old(self).particles@), ps, c, n as int);
                    lemma_members_same_layout(g0, self.grid, ps, c, n as int);
                    lemma_members_same_layout(g0, self.grid, ps, c, n + 1);
                    assert(g0.home(particle.pos) == self.grid.home(particle.pos));
                    assert(self.grid.members(ps, c, n + 1) == if self.grid.home(ps[n as int]) == c {
                        self.grid.members(ps, c, n as int).push(n)
                    } else {
                        self.grid.members(ps, c, n as int)
                    });
                }
            }
        }
    }

    /// Rebuilds the grid from scratch for the configuration's cutoff, from
    /// the current positions.
    pub fn rebuild_grid(&mut self, cfg: &SimConfig)
        requires
            old(self).wf(),
            old(self).fits(*cfg),
        ensures
            final(self).wf(),
            final(self).indexed(),
            final(self)@ == old(self)@,
            final(self).fits(*cfg),
            final(self).spatial().columns() == cells_along(cfg.width as int, cfg.max_distance as int),
            final(self).spatial().rows() == cells_along(cfg.height as int, cfg.max_distance as int),
    {
        let mut grid = Grid::new(cfg.width, cfg.height, cfg.max_distance);
        let n = self.particles.len();
        let ghost ps = positions(self.particles@);
        let mut i: usize = 0;
        while i < n
            invariant
                n == self.particles@.len(),
                ps == positions(self.particles@),
                self.wf(),
                self.fits(*cfg),
                grid.wf(),
                grid.width == cfg.width,
                grid.height == cfg.height,
                grid.columns() == cells_along(cfg.width as int, cfg.max_distance as int),
                grid.rows() == cells_along(cfg.height as int, cfg.max_distance as int),
                i <= n,
                forall|c: int|
                    0 <= c < grid.cells@.len() ==> (#[trigger] grid.cells@[c]).particles@
                        == grid.members(ps, c, i as int),
            decreases n - i,
        {
            let ghost g0 = grid;
            let pos = self.particles[i].pos;
            assert(self.spatial().contains(self@[i as int].pos));
            grid.insert(i, pos);
            proof {
                assert(ps[i as int] == pos);
                assert forall|c: int| 0 <= c < grid.cells@.len() implies (
                #[trigger] grid.cells@[c]).particles@ == grid.members(ps, c, i + 1) by {
                    assert(grid.buckets()[c] == grid.cells@[c].particles@);
                    assert(g0.buckets()[c] == g0.cells@[c].particles@);
                    lemma_members_same_layout(g0, grid, ps, c, i as int);
                    lemma_members_same_layout(g0, grid, ps, c, i + 1);
                    assert(g0.home(pos) == grid.home(pos));
                    assert(grid.members(ps, c, i + 1) == if grid.home(ps[i as int]) == c {
                        grid.members(ps, c, i as int).push(i)
                    } else {
                        grid.members(ps, c, i as int)
                    });
                    assert(g0.cells@[c].particles@ == g0.members(ps, c, i as int));
                    let h = g0.home(pos);
                    let v = g0.buckets()[h].push(i);
                    assert(g0.buckets().len() == g0.cells@.len());
                    if c == h {
                        assert(g0.buckets().update(h, v)[c] == v);
                    } else {
                        assert(g0.buckets().update(h, v)[c] == g0.buckets()[c]);
                    }
                }
            }
            i = i + 1;
        }
        self.grid = grid;
        assert forall|k: int| 0 <= k < self@.len() implies self.spatial().contains(
            #[trigger] self@[k].pos,
        ) by {
            assert(old(self).spatial().contains(old(self)@[k].pos));
        }
    }
}

/// The distinct indices of the 3-wide neighbourhood of index `c` on a
/// periodic axis of `n` cells: fewer than three when the axis is that short.
pub open spec fn neighbor_span(c: int, n: int) -> Seq<int> {
    if n == 1 {
        seq![0]
    } else if n == 2 {
        seq![c, 1 - c]
    } else {
        seq![(c + n - 1) % n, c, (c + 1) % n]
    }
}

/// The coefficient of particle `i`'s type toward particle `j`'s type.
pub open spec fn coefficient(types: Seq<ParticleType>, ps: Seq<Particle>, i: int, j: int) -> int {
    types[ps[i].type_id as int].attraction@[ps[j].type_id as int] as int
}

/// The velocity change that particle `j` causes on particle `i`.
pub open spec fn pair_force(cfg: SimConfig, types: Seq<ParticleType>, ps: Seq<Particle>, i: int, j: int) -> (int, int) {
    force_on(
        cfg,
        coefficient(types, ps, i, j),
        min_image(ps[j].pos.x - ps[i].pos.x, cfg.width as int),
        min_image(ps[j].pos.y - ps[i].pos.y, cfg.height as int),
    )
}

/// Sum of the forces on particle `i` from the particles listed in `js`,
/// itself excluded.
pub open spec fn cell_sum(cfg: SimConfig, types: Seq<ParticleType>, ps: Seq<Particle>, i: int, js: Seq<usize>) -> (int, int)
    decreases js.len(),
{
    if js.len() == 0 {
        (0, 0)
    } else {
        let rest = cell_sum(cfg, types, ps, i, js.drop_last());
        let j = js.last() as int;
        if j == i {
            rest
        } else {
            let f = pair_force(cfg, types, ps, i, j);
            (rest.0 + f.0, rest.1 + f.1)
        }
    }
}

/// Sum over the cells of row `row` whose columns are listed in `cs`.
pub open spec fn row_sum(g: Grid, cfg: SimConfig, types: Seq<ParticleType>, ps: Seq<Particle>, i: int, row: int, cs: Seq<int>) -> (int, int)
    decreases cs.len(),
{
    if cs.len() == 0 {
        (0, 0)
    } else {
        let rest = row_sum(g, cfg, types, ps, i, row, cs.drop_last());
        let c = row * g.columns() + cs.last();
        let f = cell_sum(cfg, types, ps, i, g.members(positions(ps), c, ps.len() as int));
        (rest.0 + f.0, rest.1 + f.1)
    }
}

/// Sum over the cells of the rows `rs` and columns `cs`.
pub open spec fn area_sum(g: Grid, cfg: SimConfig, types: Seq<ParticleType>, ps: Seq<Particle>, i: int, rs: Seq<int>, cs: Seq<int>) -> (int, int)
    decreases rs.len(),
{
    if rs.len() == 0 {
        (0, 0)
    } else {
        let rest = area_sum(g, cfg, types, ps, i, rs.drop_last(), cs);
        let f = row_sum(g, cfg, types, ps, i, rs.last(), cs);
        (rest.0 + f.0, rest.1 + f.1)
    }
}

/// Sum of the forces on particle `i` from every other particle in its home
/// cell and the cells around it, each cell counted once.
pub open spec fn neighborhood_force(g: Grid, cfg: SimConfig, types: Seq<ParticleType>, ps: Seq<Particle>, i: int) -> (int, int) {
    let p = ps[i].pos;
    area_sum(
        g,
        cfg,
        types,
        ps,
        i,
        neighbor_span(g.row_of(p.y as int), g.rows()),
        neighbor_span(g.column_of(p.x as int), g.columns()),
    )
}

/// Particle `i`'s velocity after the force phase: its velocity plus the
/// forces of its neighbourhood, limited to the range of `i64`.
pub open spec fn velocity_after(g: Grid, cfg: SimConfig, types: Seq<ParticleType>, ps: Seq<Particle>, i: int) -> Vec2 {
    let f = neighborhood_force(g, cfg, types, ps, i);
    Vec2 {
        x: saturate(ps[i].vel.x + f.0) as i64,
        y: saturate(ps[i].vel.y + f.1) as i64,
    }
}

/// Every particle's type has a row in the table.
pub open spec fn typed_by(ps: Seq<Particle>, types: Seq<ParticleType>) -> bool {
    forall|k: int| 0 <= k < ps.len() ==> (#[trigger] ps[k]).type_id < types.len()
}

/// Indices of the neighbourhood along an axis (see `neighbor_span`).
fn neighbor_indices(c: usize, n: usize) -> (r: Vec<usize>)
    requires
        c < n <= AXIS_CELL_LIMIT,
    ensures
        r@.len() == neighbor_span(c as int, n as int).len(),
        r@.len() <= 3,
        forall|k: int| 0 <= k < r@.len() ==> r@[k] as int == #[trigger] neighbor_span(c as int, n as int)[k],
        forall|k: int| 0 <= k < r@.len() ==> #[trigger] r@[k] < n,
{
    if n == 1 {
        vec![0]
    } else if n == 2 {
        let other: usize = 1 - c;
        vec![c, other]
    } else {
        let before: usize = (c + n - 1) % n;
        let after: usize = (c + 1) % n;
        vec![before, c, after]
    }
}

/// Largest magnitude the force sum over one cell can reach.
const CELL_SUM_LIMIT: i128 = 0x1_0000_0000_0000_0000_0000_0000;

impl Particles {
    /// Particle `i`'s velocity after the force phase, computed over the
    /// grid's cells.
    pub fn velocity_after_forces(&self, cfg: &SimConfig, types: &Vec<ParticleType>, i: usize) -> (r: Vec2)
        requires
            self.wf(),
            self.indexed(),
            self.fits(*cfg),
            table_wf(types@),
            typed_by(self@, types@),
            i < self@.len(),
        ensures
            r == velocity_after(self.spatial(), *cfg, types@, self@, i as int),
    {
        let ghost g = self.grid;
        let ghost ps = self.particles@;
        let count = self.particles.len();
        let ghost n = ps.len() as int;
        assert(positions(ps).len() == count);
        let p = self.particles[i];
        assert(self.spatial().contains(self@[i as int].pos));
        let (cx, cy) = self.grid.cell_pos_from_pos(p.pos);
        let cols = self.grid.shape.0;
        let cs = neighbor_indices(cx, cols);
        let rs = neighbor_indices(cy, self.grid.shape.1);
        let ghost gcs = neighbor_span(cx as int, cols as int);
        let ghost grs = neighbor_span(cy as int, self.grid.shape.1 as int);
        let mut ax: i128 = 0;
        let mut ay: i128 = 0;
        let mut ri: usize = 0;
        while ri < rs.len()
            invariant
                self.wf(),
                self.indexed(),
                self.fits(*cfg),
                table_wf(types@),
                typed_by(self@, types@),
                g == self.spatial(),
                ps == self@,
                n == ps.len(),
                n <= usize::MAX,
                i < n,
                p == ps[i as int],
                cols == g.shape.0,
                cy < g.shape.1,
                rs@.len() == grs.len(),
                rs@.len() <= 3,
                cs@.len() == gcs.len(),
                cs@.len() <= 3,
                forall|k: int| 0 <= k < rs@.len() ==> rs@[k] as int == #[trigger] grs[k],
                forall|k: int| 0 <= k < rs@.len() ==> #[trigger] rs@[k] < g.shape.1,
                forall|k: int| 0 <= k < cs@.len() ==> cs@[k] as int == #[trigger] gcs[k],
                forall|k: int| 0 <= k < cs@.len() ==> #[trigger] cs@[k] < g.shape.0,
                ri <= rs@.len(),
                (ax as int, ay as int) == area_sum(g, *cfg, types@, ps, i as int, grs.take(ri as int), gcs),
                abs(ax as int) <= 3 * ri * CELL_SUM_LIMIT,
                abs(ay as int) <= 3 * ri * CELL_SUM_LIMIT,
            decreases rs@.len() - ri,
        {
            let row = rs[ri];
            let mut ci: usize = 0;
            let ghost before = (ax as int, ay as int);
            while ci < cs.len()
                invariant
                    self.wf(),
                    self.indexed(),
                    self.fits(*cfg),
                    table_wf(types@),
                    typed_by(self@, types@),
                    g == self.spatial(),
                    ps == self@,
                    n == ps.len(),
                    n <= usize::MAX,
                    i < n,
                    p == ps[i as int],
                    cols == g.shape.0,
                    row < g.shape.1,
                    cs@.len() == gcs.len(),
                    cs@.len() <= 3,
                    ri < 3,
                    forall|k: int| 0 <= k < cs@.len() ==> cs@[k] as int == #[trigger] gcs[k],
                    forall|k: int| 0 <= k < cs@.len() ==> #[trigger] cs@[k] < g.shape.0,
                    ci <= cs@.len(),
                    abs(before.0) <= 3 * ri * CELL_SUM_LIMIT,
                    abs(before.1) <= 3 * ri * CELL_SUM_LIMIT,
                    ax as int == before.0 + row_sum(g, *cfg, types@, ps, i as int, row as int, gcs.take(ci as int)).0,
                    ay as int == before.1 + row_sum(g, *cfg, types@, ps, i as int, row as int, gcs.take(ci as int)).1,
                    abs(ax as int) <= (3 * ri + ci) * CELL_SUM_LIMIT,
                    abs(ay as int) <= (3 * ri + ci) * CELL_SUM_LIMIT,
                decreases cs@.len() - ci,
            {
                let col = cs[ci];
                proof {
                    crate::grid::lemma_cell_index(col as int, row as int, g.columns(), g.rows());
                }
                let c = row * cols + col;
                let bucket = &self.grid.cells[c].particles;
                let ghost js = bucket@;
                assert(js == g.members(positions(ps), c as int, n));
                proof {
                    crate::grid::lemma_members(g, positions(ps), c as int, n);
                }
                let ghost mid = (ax as int, ay as int);
                assert(positions(ps).len() == n);
                let mut s: usize = 0;
                while s < bucket.len()
                    invariant
                        self.wf(),
                        self.fits(*cfg),
                        table_wf(types@),
                        typed_by(self@, types@),
                        ps == self@,
                        i < ps.len(),
                        p == ps[i as int],
                        js == bucket@,
                        forall|k: int| 0 <= k < js.len() ==> #[trigger] js[k] < ps.len(),
                        s <= js.len(),
                        abs(mid.0) <= (3 * ri + ci) * CELL_SUM_LIMIT,
                        abs(mid.1) <= (3 * ri + ci) * CELL_SUM_LIMIT,
                        ri < 3,
                        ci < 3,
                        ax as int == mid.0 + cell_sum(*cfg, types@, ps, i as int, js.take(s as int)).0,
                        ay as int == mid.1 + cell_sum(*cfg, types@, ps, i as int, js.take(s as int)).1,
                        abs(ax as int - mid.0) <= s * FORCE_LIMIT,
                        abs(ay as int - mid.1) <= s * FORCE_LIMIT,
                    decreases js.len() - s,
                {
                    let j = bucket[s];
                    assert(js.take(s + 1).drop_last() == js.take(s as int));
                    if j != i {
                        let q = self.particles[j];
                        assert(self.spatial().contains(self@[j as int].pos));
                        let dx = wrap_displacement(q.pos.x - p.pos.x, cfg.width);
                        let dy = wrap_displacement(q.pos.y - p.pos.y, cfg.height);
                        proof {
                            lemma_min_image_bound(q.pos.x - p.pos.x, cfg.width as int);
                            lemma_min_image_bound(q.pos.y - p.pos.y, cfg.height as int);
                        }
                        let coef = types[p.type_id].attraction[q.type_id];
                        let f = force_between(cfg, coef, dx, dy);
                        ax = ax + f.x as i128;
                        ay = ay + f.y as i128;
                    }
                    s = s + 1;
                }
                proof {
                    assert(js.take(js.len() as int) == js);
                    assert(s * FORCE_LIMIT <= CELL_SUM_LIMIT) by (nonlinear_arith)
                        requires s <= usize::MAX;
                    assert(gcs.take(ci + 1).drop_last() == gcs.take(ci as int));
                }
                ci = ci + 1;
            }
            proof {
                assert(gcs.take(cs@.len() as int) == gcs);
                assert(grs.take(ri + 1).drop_last() == grs.take(ri as int));
            }
            ri = ri + 1;
        }
        proof {
            assert(grs.take(rs@.len() as int) == grs);
        }
        let vx = p.vel.x as i128 + ax;
        let vy = p.vel.y as i128 + ay;
        Vec2 { x: clamp_to_i64(vx), y: clamp_to_i64(vy) }
    }
}

/// The velocity writes of home cell `c`: each particle the cell holds, in
/// increasing index order, with its velocity after the force phase.
pub open spec fn cell_writes(g: Grid, cfg: SimConfig, types: Seq<ParticleType>, ps: Seq<Particle>, c: int) -> Seq<(usize, Vec2)> {
    g.members(positions(ps), c, ps.len() as int).map_values(
        |i: usize| (i, velocity_after(g, cfg, types, ps, i as int)),
    )
}

/// The velocity writes of the home cells `lo .. hi`, cell after cell.
pub open spec fn range_writes(g: Grid, cfg: SimConfig, types: Seq<ParticleType>, ps: Seq<Particle>, lo: int, hi: int) -> Seq<(usize, Vec2)>
    decreases hi - lo,
{
    if hi <= lo {
        seq![]
    } else {
        range_writes(g, cfg, types, ps, lo, hi - 1) + cell_writes(g, cfg, types, ps, hi - 1)
    }
}

/// `ps` with the velocity writes `ws` carried out in order.
pub open spec fn with_writes(ps: Seq<Particle>, ws: Seq<(usize, Vec2)>) -> Seq<Particle>
    decreases ws.len(),
{
    if ws.len() == 0 {
        ps
    } else {
        let prev = with_writes(ps, ws.drop_last());
        let j = ws.last().0 as int;
        prev.update(j, Particle { pos: prev[j].pos, vel: ws.last().1, type_id: prev[j].type_id })
    }
}

/// Some write of `ws` names particle `i`.
pub open spec fn names_particle(ws: Seq<(usize, Vec2)>, i: int) -> bool {
    exists|k: int| 0 <= k < ws.len() && (#[trigger] ws[k]).0 == i
}

/// Every write of `ws` targets a particle of `ps`.
pub open spec fn writes_in_range(ps: Seq<Particle>, ws: Seq<(usize, Vec2)>) -> bool {
    forall|k: int| 0 <= k < ws.len() ==> (#[trigger] ws[k]).0 < ps.len()
}

/// Velocity after one tick of friction, rounded toward zero.
pub open spec fn damp(v: int, friction: int) -> int {
    trunc_div(v * (ONE - friction), ONE as int)
}

/// A particle after the integration step: moved by its velocity, wrapped
/// into the domain, its velocity damped by friction.
pub open spec fn moved(p: Particle, cfg: SimConfig) -> Particle {
    Particle {
        pos: Vec2 {
            x: ((p.pos.x + p.vel.x) % (cfg.width as int)) as i64,
            y: ((p.pos.y + p.vel.y) % (cfg.height as int)) as i64,
        },
        vel: Vec2 {
            x: damp(p.vel.x as int, cfg.friction as int) as i64,
            y: damp(p.vel.y as int, cfg.friction as int) as i64,
        },
        type_id: p.type_id,
    }
}

/// The force phase over the whole store: every particle's velocity
/// replaced by its velocity after the forces of its neighbourhood.
pub open spec fn after_forces(g: Grid, cfg: SimConfig, types: Seq<ParticleType>, ps: Seq<Particle>) -> Seq<Particle> {
    Seq::new(
        ps.len(),
        |i: int| Particle { pos: ps[i].pos, vel: velocity_after(g, cfg, types, ps, i), type_id: ps[i].type_id },
    )
}

/// One whole tick on a store whose grid `g` buckets `ps`.
pub open spec fn tick(g: Grid, cfg: SimConfig, types: Seq<ParticleType>, ps: Seq<Particle>) -> Seq<Particle> {
    after_forces(g, cfg, types, ps).map_values(|p: Particle| moved(p, cfg))
}

impl Particles {
    /// The velocity writes of home cell `cell`: read-only on the store, so
    /// workers may run it on distinct cells at once.
    pub fn update_cell(&self, cfg: &SimConfig, types: &Vec<ParticleType>, cell: usize) -> (r: Vec<(usize, Vec2)>)
        requires
            self.wf(),
            self.indexed(),
            self.fits(*cfg),
            table_wf(types@),
            typed_by(self@, types@),
            cell < self.spatial().cells@.len(),
        ensures
            r@ == cell_writes(self.spatial(), *cfg, types@, self@, cell as int),
    {
        let ghost g = self.grid;
        let ghost ps = self.particles@;
        let count = self.particles.len();
        assert(positions(ps).len() == count);
        let bucket = &self.grid.cells[cell].particles;
        assert(bucket@ == g.members(positions(ps), cell as int, ps.len() as int));
        proof {
            crate::grid::lemma_members(g, positions(ps), cell as int, ps.len() as int);
        }
        let ghost target = cell_writes(g, *cfg, types@, ps, cell as int);
        let mut out: Vec<(usize, Vec2)> = Vec::new();
        let mut s: usize = 0;
        while s < bucket.len()
            invariant
                self.wf(),
                self.indexed(),
                self.fits(*cfg),
                table_wf(types@),
                typed_by(self@, types@),
                g == self.spatial(),
                ps == self@,
                target == cell_writes(g, *cfg, types@, ps, cell as int),
                bucket@ == g.members(positions(ps), cell as int, ps.len() as int),
                forall|k: int| 0 <= k < bucket@.len() ==> #[trigger] bucket@[k] < ps.len(),
                s <= bucket@.len(),
                out@ == target.take(s as int),
            decreases bucket@.len() - s,
        {
            let i = bucket[s];
            let v = self.velocity_after_forces(cfg, types, i);
            out.push((i, v));
            assert(out@ =~= target.take(s + 1));
            s = s + 1;
        }
        assert(target.take(s as int) =~= target);
        out
    }

    /// The velocity writes of home cells `lo .. hi`: one worker's share of
    /// the force phase.
    pub fn update_cells(&self, cfg: &SimConfig, types: &Vec<ParticleType>, lo: usize, hi: usize) -> (r: Vec<(usize, Vec2)>)
        requires
            self.wf(),
            self.indexed(),
            self.fits(*cfg),
            table_wf(types@),
            typed_by(self@, types@),
            lo <= hi <= self.spatial().cells@.len(),
        ensures
            r@ == range_writes(self.spatial(), *cfg, types@, self@, lo as int, hi as int),
    {
        let mut out: Vec<(usize, Vec2)> = Vec::new();
        let mut c: usize = lo;
        while c < hi
            invariant
                self.wf(),
                self.indexed(),
                self.fits(*cfg),
                table_wf(types@),
                typed_by(self@, types@),
                lo <= c <= hi <= self.spatial().cells@.len(),
                out@ == range_writes(self.spatial(), *cfg, types@, self@, lo as int, c as int),
            decreases hi - c,
        {
            let mut w = self.update_cell(cfg, types, c);
            out.append(&mut w);
            c = c + 1;
        }
        out
    }

    /// Carries out velocity writes in order. Refuses, changing nothing, when
    /// a write names a particle the store does not hold.
    pub fn apply_writes(&mut self, writes: &Vec<(usize, Vec2)>) -> (r: bool)
        requires
            old(self).wf(),
        ensures
            r == writes_in_range(old(self)@, writes@),
            r ==> final(self)@ == with_writes(old(self)@, writes@),
            !r ==> final(self)@ == old(self)@,
            final(self).wf(),
            final(self).spatial() == old(self).spatial(),
            positions(final(self)@) == positions(old(self)@),
    {
        let n = self.particles.len();
        if !all_below(writes, n) {
            return false;
        }
        let ghost ps0 = self.particles@;
        let mut k: usize = 0;
        while k < writes.len()
            invariant
                ps0 == old(self)@,
                ps0.len() == n,
                self.grid == old(self).grid,
                self.particles@.len() == n,
                writes_in_range(ps0, writes@),
                k <= writes@.len(),
                self.particles@ == with_writes(ps0, writes@.take(k as int)),
                positions(self.particles@) == positions(ps0),
            decreases writes@.len() - k,
        {
            let (j, v) = writes[k];
            let old_p = self.particles[j];
            self.particles.set(j, Particle { pos: old_p.pos, vel: v, type_id: old_p.type_id });
            assert(writes@.take(k + 1).drop_last() == writes@.take(k as int));
            assert(positions(self.particles@) =~= positions(ps0));
            k = k + 1;
        }
        assert(writes@.take(k as int) == writes@);
        assert forall|i: int| 0 <= i < self@.len() implies self.spatial().contains(#[trigger] self@[i].pos) by {
            assert(positions(self.particles@)[i] == positions(ps0)[i]);
            assert(old(self).spatial().contains(old(self)@[i].pos));
        }
        true
    }

    /// Moves every particle by its velocity, wraps it into the domain and
    /// damps its velocity by friction.
    pub fn integrate(&mut self, cfg: &SimConfig)
        requires
            old(self).wf(),
            old(self).fits(*cfg),
        ensures
            final(self)@ == old(self)@.map_values(|p: Particle| moved(p, *cfg)),
            final(self).wf(),
            final(self).spatial() == old(self).spatial(),
    {
        let n = self.particles.len();
        let mut i: usize = 0;
        while i < n
            invariant
                n == self.particles@.len(),
                n == old(self)@.len(),
                self.grid == old(self).grid,
                old(self).fits(*cfg),
                i <= n,
                forall|k: int| 0 <= k < i ==> #[trigger] self.particles@[k] == moved(old(self)@[k], *cfg),
                forall|k: int| i <= k < n ==> #[trigger] self.particles@[k] == old(self)@[k],
            decreases n - i,
        {
            let p = self.particles[i];
            let x = wrap_coordinate(p.pos.x, p.vel.x, cfg.width);
            let y = wrap_coordinate(p.pos.y, p.vel.y, cfg.height);
            let vx = damp_velocity(p.vel.x, cfg.friction);
            let vy = damp_velocity(p.vel.y, cfg.friction);
            self.particles.set(i, Particle { pos: Vec2 { x, y }, vel: Vec2 { x: vx, y: vy }, type_id: p.type_id });
            i = i + 1;
        }
        assert(self.particles@ =~= old(self)@.map_values(|p: Particle| moved(p, *cfg)));
    }

    /// One tick, single-threaded: rebuild the grid, run the force phase over
    /// every cell, then integrate.
    pub fn update(&mut self, cfg: &SimConfig, types: &Vec<ParticleType>)
        requires
            old(self).wf(),
            old(self).fits(*cfg),
            table_wf(types@),
            typed_by(old(self)@, types@),
        ensures
            final(self).wf(),
            final(self).fits(*cfg),
            final(self)@ == tick(final(self).spatial(), *cfg, types@, old(self)@),
            final(self)@ == all_pairs_tick(*cfg, types@, old(self)@),
            final(self).spatial().columns() == cells_along(cfg.width as int, cfg.max_distance as int),
            final(self).spatial().rows() == cells_along(cfg.height as int, cfg.max_distance as int),
            final(self).spatial().indexes(positions(old(self)@)),
    {
        self.rebuild_grid(cfg);
        let ghost ps = self.particles@;
        let ghost g = self.grid;
        let cells = self.grid.cells.len();
        let count = self.particles.len();
        let writes = self.update_cells(cfg, types, 0, cells);
        proof {
            lemma_range_writes_cover(g, *cfg, types@, ps, cells as int);
        }
        let ok = self.apply_writes(&writes);
        assert(ok);
        proof {
            lemma_apply_own_writes(g, *cfg, types@, ps, writes@);
            lemma_tick_is_all_pairs(g, *cfg, types@, ps);
        }
        self.integrate(cfg);
    }
}

/// Carrying out writes whose values all agree with the force phase, and
/// that name every particle, gives the force phase.
pub proof fn lemma_apply_own_writes(g: Grid, cfg: SimConfig, types: Seq<ParticleType>, ps: Seq<Particle>, ws: Seq<(usize, Vec2)>)
    requires
        writes_in_range(ps, ws),
        forall|k: int| 0 <= k < ws.len() ==> (#[trigger] ws[k]).1 == velocity_after(g, cfg, types, ps, ws[k].0 as int),
        forall|i: int| 0 <= i < ps.len() ==> #[trigger] names_particle(ws, i),
    ensures
        with_writes(ps, ws) == after_forces(g, cfg, types, ps),
{
    lemma_with_writes(g, cfg, types, ps, ws);
    assert(with_writes(ps, ws) =~= after_forces(g, cfg, types, ps));
}

/// After writes whose values agree with the force phase, each particle has
/// its force-phase velocity if some write names it, and is unchanged otherwise.
proof fn lemma_with_writes(g: Grid, cfg: SimConfig, types: Seq<ParticleType>, ps: Seq<Particle>, ws: Seq<(usize, Vec2)>)
    requires
        writes_in_range(ps, ws),
        forall|k: int| 0 <= k < ws.len() ==> (#[trigger] ws[k]).1 == velocity_after(g, cfg, types, ps, ws[k].0 as int),
    ensures
        with_writes(ps, ws).len() == ps.len(),
        forall|i: int|
            0 <= i < ps.len() ==> #[trigger] with_writes(ps, ws)[i] == if names_particle(ws, i) {
                after_forces(g, cfg, types, ps)[i]
            } else {
                ps[i]
            },
    decreases ws.len(),
{
    if ws.len() > 0 {
        let rest = ws.drop_last();
        assert forall|k: int| 0 <= k < rest.len() implies (#[trigger] rest[k]).1 == velocity_after(
            g,
            cfg,
            types,
            ps,
            rest[k].0 as int,
        ) by {
            assert(rest[k] == ws[k]);
        }
        assert forall|k: int| 0 <= k < rest.len() implies (#[trigger] rest[k]).0 < ps.len() by {
            assert(rest[k] == ws[k]);
        }
        lemma_with_writes(g, cfg, types, ps, rest);
        let last = ws.len() - 1;
        assert(ws[last].0 < ps.len());
        assert forall|i: int| 0 <= i < ps.len() implies #[trigger] with_writes(ps, ws)[i] == if names_particle(ws, i) {
            after_forces(g, cfg, types, ps)[i]
        } else {
            ps[i]
        } by {
            if i == ws[last].0 {
            } else {
                if names_particle(ws, i) {
                    let k = choose|k: int| 0 <= k < ws.len() && (#[trigger] ws[k]).0 == i;
                    assert(rest[k] == ws[k]);
                    assert(names_particle(rest, i));
                } else {
                    assert forall|k: int| 0 <= k < rest.len() implies (#[trigger] rest[k]).0 != i by {
                        assert(rest[k] == ws[k]);
                    }
                }
            }
        }
    }
}

/// The writes of all cells carry force-phase values and name every particle
/// of the store.
pub proof fn lemma_range_writes_cover(g: Grid, cfg: SimConfig, types: Seq<ParticleType>, ps: Seq<Particle>, cells: int)
    requires
        g.wf(),
        cells == g.cells@.len(),
        ps.len() <= usize::MAX,
        forall|i: int| 0 <= i < ps.len() ==> g.contains(#[trigger] ps[i].pos),
    ensures
        writes_in_range(ps, range_writes(g, cfg, types, ps, 0, cells)),
        forall|k: int|
            0 <= k < range_writes(g, cfg, types, ps, 0, cells).len() ==> (#[trigger] range_writes(g, cfg, types, ps, 0, cells)[k]).1
                == velocity_after(g, cfg, types, ps, range_writes(g, cfg, types, ps, 0, cells)[k].0 as int),
        forall|i: int| 0 <= i < ps.len() ==> #[trigger] names_particle(range_writes(g, cfg, types, ps, 0, cells), i),
{
    lemma_range_writes(g, cfg, types, ps, 0, cells);
    let ws = range_writes(g, cfg, types, ps, 0, cells);
    assert forall|i: int| 0 <= i < ps.len() implies #[trigger] names_particle(ws, i) by {
        let p = ps[i].pos;
        assert(g.contains(p));
        crate::grid::lemma_axis_index(p.x as int, g.columns(), g.width as int);
        crate::grid::lemma_axis_index(p.y as int, g.rows(), g.height as int);
        crate::grid::lemma_cell_index(g.column_of(p.x as int), g.row_of(p.y as int), g.columns(), g.rows());
        assert(positions(ps)[i] == p);
        lemma_in_range_writes(g, cfg, types, ps, 0, cells, i);
    }
}

/// Shape of `range_writes`: each write names a particle of a cell in the
/// range and carries its force-phase velocity.
pub proof fn lemma_range_writes(g: Grid, cfg: SimConfig, types: Seq<ParticleType>, ps: Seq<Particle>, lo: int, hi: int)
    requires
        ps.len() <= usize::MAX,
    ensures
        forall|k: int|
            0 <= k < range_writes(g, cfg, types, ps, lo, hi).len() ==> {
                &&& (#[trigger] range_writes(g, cfg, types, ps, lo, hi)[k]).0 < ps.len()
                &&& range_writes(g, cfg, types, ps, lo, hi)[k].1 == velocity_after(g, cfg, types, ps, range_writes(g, cfg, types, ps, lo, hi)[k].0 as int)
                &&& lo <= g.home(ps[range_writes(g, cfg, types, ps, lo, hi)[k].0 as int].pos) < hi
            },
    decreases hi - lo,
{
    if hi > lo {
        lemma_range_writes(g, cfg, types, ps, lo, hi - 1);
        crate::grid::lemma_members(g, positions(ps), hi - 1, ps.len() as int);
        let a = range_writes(g, cfg, types, ps, lo, hi - 1);
        let b = cell_writes(g, cfg, types, ps, hi - 1);
        let m = g.members(positions(ps), hi - 1, ps.len() as int);
        assert forall|k: int| 0 <= k < (a + b).len() implies {
            &&& (#[trigger] (a + b)[k]).0 < ps.len()
            &&& (a + b)[k].1 == velocity_after(g, cfg, types, ps, (a + b)[k].0 as int)
            &&& lo <= g.home(ps[(a + b)[k].0 as int].pos) < hi
        } by {
            if k >= a.len() {
                let t = k - a.len();
                assert(b[t] == (m[t], velocity_after(g, cfg, types, ps, m[t] as int)));
                assert(positions(ps)[m[t] as int] == ps[m[t] as int].pos);
            } else {
                assert((a + b)[k] == a[k]);
            }
        }
    }
}

/// A particle whose home cell lies in `lo .. hi` is named by a write of
/// that range.
proof fn lemma_in_range_writes(g: Grid, cfg: SimConfig, types: Seq<ParticleType>, ps: Seq<Particle>, lo: int, hi: int, i: int)
    requires
        ps.len() <= usize::MAX,
        0 <= i < ps.len(),
        lo <= g.home(ps[i].pos) < hi,
    ensures
        names_particle(range_writes(g, cfg, types, ps, lo, hi), i),
    decreases hi - lo,
{
    let a = range_writes(g, cfg, types, ps, lo, hi - 1);
    let b = cell_writes(g, cfg, types, ps, hi - 1);
    if g.home(ps[i].pos) == hi - 1 {
        crate::grid::lemma_members(g, positions(ps), hi - 1, ps.len() as int);
        assert(positions(ps)[i] == ps[i].pos);
        let m = g.members(positions(ps), hi - 1, ps.len() as int);
        assert(m.contains(i as usize));
        let t = choose|t: int| 0 <= t < m.len() && m[t] == i as usize;
        assert((a + b)[a.len() + t] == b[t]);
    } else {
        lemma_in_range_writes(g, cfg, types, ps, lo, hi - 1, i);
        let k = choose|k: int| 0 <= k < a.len() && (#[trigger] a[k]).0 == i;
        assert((a + b)[k] == a[k]);
    }
}

/// Containment: after a tick every particle lies inside the domain,
/// whatever the velocities were.
pub proof fn lemma_tick_contained(g: Grid, cfg: SimConfig, types: Seq<ParticleType>, ps: Seq<Particle>)
    requires
        cfg.valid(),
    ensures
        tick(g, cfg, types, ps).len() == ps.len(),
        forall|i: int|
            0 <= i < ps.len() ==> {
                let p = #[trigger] tick(g, cfg, types, ps)[i].pos;
                &&& 0 <= p.x < cfg.width
                &&& 0 <= p.y < cfg.height
            },
{
    assert forall|i: int| 0 <= i < ps.len() implies {
        let p = #[trigger] tick(g, cfg, types, ps)[i].pos;
        &&& 0 <= p.x < cfg.width
        &&& 0 <= p.y < cfg.height
    } by {
        let q = after_forces(g, cfg, types, ps)[i];
        assert(tick(g, cfg, types, ps)[i] == moved(q, cfg));
        vstd::arithmetic::div_mod::lemma_mod_bound(q.pos.x + q.vel.x, cfg.width as int);
        vstd::arithmetic::div_mod::lemma_mod_bound(q.pos.y + q.vel.y, cfg.height as int);
    }
}

/// Cutoff locality for particles of the store: when the minimum-image
/// distance between particles `i` and `j` is at least `max_distance`, `j`
/// changes nothing in `i`'s velocity.
pub proof fn lemma_pair_cutoff(cfg: SimConfig, types: Seq<ParticleType>, ps: Seq<Particle>, i: int, j: int)
    requires
        cfg.valid(),
        0 <= i < ps.len(),
        0 <= j < ps.len(),
        ({
            let dx = min_image(ps[j].pos.x - ps[i].pos.x, cfg.width as int);
            let dy = min_image(ps[j].pos.y - ps[i].pos.y, cfg.height as int);
            dx * dx + dy * dy >= cfg.max_distance * cfg.max_distance
        }),
    ensures
        pair_force(cfg, types, ps, i, j) == (0int, 0int),
{
    crate::force::lemma_cutoff_locality(
        cfg,
        coefficient(types, ps, i, j),
        min_image(ps[j].pos.x - ps[i].pos.x, cfg.width as int),
        min_image(ps[j].pos.y - ps[i].pos.y, cfg.height as int),
    );
}

/// Floors of two numbers less than `d` apart differ by at most one.
proof fn lemma_floor_close(x: int, y: int, d: int)
    requires
        d > 0,
        -d < x - y < d,
    ensures
        -1 <= x / d - y / d <= 1,
{
    vstd::arithmetic::div_mod::lemma_fundamental_div_mod(x, d);
    vstd::arithmetic::div_mod::lemma_fundamental_div_mod(y, d);
    let qx = x / d;
    let qy = y / d;
    let rx = x % d;
    let ry = y % d;
    assert(-1 <= qx - qy <= 1) by (nonlinear_arith)
        requires
            x == d * qx + rx,
            y == d * qy + ry,
            0 <= rx < d,
            0 <= ry < d,
            -d < x - y < d,
            d > 0,
    ;
}

/// Along one periodic axis cut into cells at least `cut` wide, a point
/// less than `cut` away from another (through the wrap or not) falls into
/// the other's cell or a cell next to it.
pub proof fn lemma_axis_neighbor(a: int, b: int, d: int, cut: int)
    requires
        0 <= a < d,
        0 <= b < d,
        d <= EXTENT_LIMIT,
        cut > 0,
        abs(min_image(b - a, d)) < cut,
    ensures
        neighbor_span(a * cells_along(d, cut) / d, cells_along(d, cut)).contains(
            b * cells_along(d, cut) / d,
        ),
{
    let n = cells_along(d, cut);
    crate::grid::lemma_axis_index(a, n, d);
    crate::grid::lemma_axis_index(b, n, d);
    let c = a * n / d;
    let cb = b * n / d;
    let span = neighbor_span(c, n);
    if n == 1 {
        assert(span[0] == cb);
    } else if n == 2 {
        if cb == c {
            assert(span[0] == cb);
        } else {
            assert(span[1] == cb);
        }
    } else {
        // the cells are at least `cut` wide
        vstd::arithmetic::div_mod::lemma_fundamental_div_mod(d, cut);
        assert(n * cut <= d) by (nonlinear_arith)
            requires n <= d / cut, cut * (d / cut) + d % cut == d, 0 <= d % cut, cut > 0, n >= 0;
        let m = min_image(b - a, d);
        let s: int = if (b - a) * 2 > d {
            1
        } else if (b - a) * 2 < -d {
            -1
        } else {
            0
        };
        if (b - a) * 2 > d {
            assert(m == b - a - d);
            assert(s == 1);
            assert(s * d == d);
        } else if (b - a) * 2 < -d {
            assert(m == b - a + d);
            assert(s == -1);
            assert(s * d == -d);
        } else {
            assert(m == b - a);
            assert(s == 0);
            assert(s * d == 0);
        }
        assert(b - a - m == s * d);
        assert(-d < m * n < d) by (nonlinear_arith)
            requires -cut < m < cut, n * cut <= d, n >= 3;
        let u = (a + m) * n;
        assert(b * n == u + (s * n) * d) by (nonlinear_arith)
            requires b - a - m == s * d, u == (a + m) * n;
        vstd::arithmetic::div_mod::lemma_fundamental_div_mod(u, d);
        assert(b * n == (u / d + s * n) * d + u % d) by (nonlinear_arith)
            requires b * n == u + (s * n) * d, u == d * (u / d) + u % d;
        vstd::arithmetic::div_mod::lemma_fundamental_div_mod_converse(b * n, d, u / d + s * n, u % d);
        let f = u / d;
        assert(cb == f + s * n);
        assert(a * n - u == -(m * n)) by (nonlinear_arith)
            requires u == (a + m) * n;
        lemma_floor_close(a * n, u, d);
        let t = f - c;
        assert(-1 <= t <= 1);
        assert(c + t == (-s) * n + cb) by (nonlinear_arith)
            requires cb == f + s * n, t == f - c;
        vstd::arithmetic::div_mod::lemma_fundamental_div_mod_converse(c + t, n, -s, cb);
        if t == -1 {
            assert(c + n - 1 == (1 - s) * n + cb) by (nonlinear_arith)
                requires c + t == (-s) * n + cb, t == -1;
            vstd::arithmetic::div_mod::lemma_fundamental_div_mod_converse(c + n - 1, n, 1 - s, cb);
            assert(span[0] == cb);
        } else if t == 0 {
            assert(span[1] == cb);
        } else {
            assert(span[2] == cb);
        }
    }
}

/// Locality of the grid: for a grid whose cells are at least
/// `max_distance` wide and high, a particle closer than `max_distance` to
/// another (minimum-image distance) lies in the other's home cell or one of
/// the cells around it, so the force phase never misses an interacting pair.
pub proof fn lemma_within_cutoff_is_neighbor(g: Grid, cfg: SimConfig, p: Vec2, q: Vec2)
    requires
        cfg.valid(),
        g.wf(),
        g.width == cfg.width,
        g.height == cfg.height,
        g.columns() == cells_along(cfg.width as int, cfg.max_distance as int),
        g.rows() == cells_along(cfg.height as int, cfg.max_distance as int),
        g.contains(p),
        g.contains(q),
        ({
            let dx = min_image(q.x - p.x, cfg.width as int);
            let dy = min_image(q.y - p.y, cfg.height as int);
            dx * dx + dy * dy < cfg.max_distance * cfg.max_distance
        }),
    ensures
        neighbor_span(g.column_of(p.x as int), g.columns()).contains(g.column_of(q.x as int)),
        neighbor_span(g.row_of(p.y as int), g.rows()).contains(g.row_of(q.y as int)),
{
    let dx = min_image(q.x - p.x, cfg.width as int);
    let dy = min_image(q.y - p.y, cfg.height as int);
    let hi = cfg.max_distance as int;
    assert(abs(dx) < hi && abs(dy) < hi && hi > 0) by (nonlinear_arith)
        requires dx * dx + dy * dy < hi * hi, hi >= 0;
    lemma_axis_neighbor(p.x as int, q.x as int, cfg.width as int, hi);
    lemma_axis_neighbor(p.y as int, q.y as int, cfg.height as int, hi);
}

/// Whether every write names an index below `n`.
fn all_below(writes: &Vec<(usize, Vec2)>, n: usize) -> (r: bool)
    ensures
        r == forall|k: int| 0 <= k < writes@.len() ==> (#[trigger] writes@[k]).0 < n,
{
    let mut k: usize = 0;
    while k < writes.len()
        invariant
            k <= writes@.len(),
            forall|m: int| 0 <= m < k ==> (#[trigger] writes@[m]).0 < n,
        decreases writes@.len() - k,
    {
        if writes[k].0 >= n {
            return false;
        }
        k = k + 1;
    }
    true
}

/// The remainder of `pos + vel` by `extent`, in `[0, extent)`.
fn wrap_coordinate(pos: i64, vel: i64, extent: i64) -> (r: i64)
    requires
        0 < extent <= EXTENT_LIMIT,
    ensures
        r as int == (pos + vel) % (extent as int),
        0 <= r < extent,
{
    let s: i128 = pos as i128 + vel as i128;
    match s.checked_rem_euclid(extent as i128) {
        Some(m) => m as i64,
        None => 0,
    }
}

fn damp_velocity(v: i64, friction: i64) -> (r: i64)
    requires
        0 <= friction <= ONE,
    ensures
        r as int == damp(v as int, friction as int),
{
    let keep: i128 = (ONE - friction) as i128;
    proof {
        assert(abs(v * keep) <= abs(v as int) * ONE) by (nonlinear_arith)
            requires 0 <= keep <= ONE;
        crate::fixed::lemma_trunc_div_bound(v * keep, ONE as int, abs(v as int));
        if v >= 0 {
            assert(v * keep >= 0) by (nonlinear_arith)
                requires v >= 0, keep >= 0;
            vstd::arithmetic::div_mod::lemma_div_pos_is_pos(v * keep, ONE as int);
        } else {
            assert(-(v * keep) >= 0) by (nonlinear_arith)
                requires v < 0, keep >= 0;
            vstd::arithmetic::div_mod::lemma_div_pos_is_pos(-(v * keep), ONE as int);
        }
        assert(abs(v as int) * ONE <= 0x8000_0000_0000_0000int * 0x10_0000) by (nonlinear_arith)
            requires abs(v as int) <= 0x8000_0000_0000_0000int;
    }
    let r = crate::fixed::div_toward_zero(v as i128 * keep, ONE as i128);
    r as i64
}

fn clamp_to_i64(v: i128) -> (r: i64)
    ensures
        r as int == saturate(v as int),
{
    if v > i64::MAX as i128 {
        i64::MAX
    } else if v < i64::MIN as i128 {
        i64::MIN
    } else {
        v as i64
    }
}

/// `members` depends only on the grid's layout, not on its contents.
proof fn lemma_members_same_layout(g: Grid, h: Grid, ps: Seq<Vec2>, c: int, n: int)
    requires
        g.shape == h.shape,
        g.width == h.width,
        g.height == h.height,
    ensures
        g.members(ps, c, n) == h.members(ps, c, n),
    decreases n,
{
    if n > 0 {
        lemma_members_same_layout(g, h, ps, c, n - 1);
    }
}

/// `members` below `n` only reads the first `n` positions.
proof fn lemma_members_prefix(g: Grid, ps: Seq<Vec2>, qs: Seq<Vec2>, c: int, n: int)
    requires
        0 <= n <= ps.len(),
        n <= qs.len(),
        forall|k: int| 0 <= k < n ==> ps[k] == qs[k],
    ensures
        g.members(ps, c, n) == g.members(qs, c, n),
    decreases n,
{
    if n > 0 {
        lemma_members_prefix(g, ps, qs, c, n - 1);
    }
}

} // verus!
