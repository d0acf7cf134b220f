//! Creating a generation: a type table and a randomly placed population.
use vstd::prelude::*;
use crate::config::SimConfig;
use crate::fixed::{Vec2, ONE};
use crate::particle::{Particle, Particles};
use crate::types::{matrix, table_wf, ParticleType};

verus! {

/// Largest magnitude accepted as a bound of `random_between`: every integer
/// up to it is exact in `f64`.
const RANDOM_BOUND: i64 = 0x10_0000_0000_0000;

/// Relies on `macroquad::rand::gen_range` (quad-rand) for `i64`: it scales a
/// 32-bit draw in `[0, 1)` to `low + (high - low) * r` in `f64` and
/// truncates toward zero, so for bounds exact in `f64` the result lies in
/// `[low, high]`.
#[verifier::external_body]
fn random_between(low: i64, high: i64) -> (r: i64)
    requires
        -RANDOM_BOUND <= low <= high <= RANDOM_BOUND,
    ensures
        low <= r <= high,
{
    macroquad::rand::gen_range(low, high)
}

/// Why a generation could not be created.
#[derive(Clone, Copy, Debug, PartialEq, Eq, Structural)]
pub enum SetupError {
    NoParticles,
    NoTypes,
    CoefficientOutOfRange,
}

/// A table of `count` types. With `Some(v)` every coefficient is `v`;
/// with `None` each is drawn uniformly from `[-ONE, ONE]`.
pub fn initialize_types(count: usize, value: Option<i64>) -> (r: Result<Vec<ParticleType>, SetupError>)
    ensures
        count == 0 ==> r == Err::<Vec<ParticleType>, SetupError>(SetupError::NoTypes),
        count > 0 && value is Some && (value->0 < -ONE || value->0 > ONE) ==> r == Err::<
            Vec<ParticleType>,
            SetupError,
        >(SetupError::CoefficientOutOfRange),
        count > 0 && (value is None || -ONE <= value->0 <= ONE) ==> r is Ok,
        r is Ok ==> {
            let t = r->Ok_0@;
            &&& t.len() == count
            &&& table_wf(t)
            &&& value is Some ==> forall|a: int, b: int|
                0 <= a < count && 0 <= b < count ==> #[trigger] matrix(t)[a][b] == value->0
        },
{
    if count == 0 {
        return Err(SetupError::NoTypes);
    }
    if let Some(v) = value {
        if v < -ONE || v > ONE {
            return Err(SetupError::CoefficientOutOfRange);
        }
    }
    let mut types: Vec<ParticleType> = Vec::new();
    let mut a: usize = 0;
    while a < count
        invariant
            0 < count,
            a <= count,
            types@.len() == a,
            value is Some ==> -ONE <= value->0 <= ONE,
            forall|i: int| 0 <= i < a ==> (#[trigger] types@[i]).attraction@.len() == count,
            forall|i: int, j: int|
                0 <= i < a && 0 <= j < count ==> -ONE <= #[trigger] types@[i].attraction@[j] <= ONE,
            value is Some ==> forall|i: int, j: int|
                0 <= i < a && 0 <= j < count ==> #[trigger] types@[i].attraction@[j] == value->0,
        decreases count - a,
    {
        let mut row: Vec<i64> = Vec::new();
        let mut b: usize = 0;
        while b < count
            invariant
                b <= count,
                row@.len() == b,
                value is Some ==> -ONE <= value->0 <= ONE,
                forall|j: int| 0 <= j < b ==> -ONE <= #[trigger] row@[j] <= ONE,
                value is Some ==> forall|j: int| 0 <= j < b ==> #[trigger] row@[j] == value->0,
            decreases count - b,
        {
            let coef = match value {
                Some(v) => v,
                None => random_between(-ONE, ONE),
            };
            row.push(coef);
            b = b + 1;
        }
        types.push(ParticleType::new(row));
        a = a + 1;
    }
    let ghost t = types@;
    assert forall|i: int, j: int| 0 <= i < count && 0 <= j < count implies #[trigger] matrix(t)[i][j]
        == t[i].attraction@[j] by {}
    Ok(types)
}

/// A random population of `count` particles over the configuration's
/// domain: positions uniform in the domain, types uniform in
/// `0 .. type_count`, velocities zero.
pub fn initialize_particles(cfg: &SimConfig, count: usize, type_count: usize) -> (r: Result<Particles, SetupError>)
    requires
        cfg.valid(),
    ensures
        count == 0 ==> r == Err::<Particles, SetupError>(SetupError::NoParticles),
        count > 0 && type_count == 0 ==> r == Err::<Particles, SetupError>(SetupError::NoTypes),
        count > 0 && type_count > 0 ==> r is Ok,
        r is Ok ==> {
            let p = r->Ok_0;
            &&& p.wf()
            &&& p.indexed()
            &&& p.fits(*cfg)
            &&& p@.len() == count
            &&& forall|i: int| 0 <= i < count ==> (#[trigger] p@[i]).type_id < type_count
            &&& forall|i: int| 0 <= i < count ==> (#[trigger] p@[i]).vel == (Vec2 { x: 0, y: 0 })
        },
{
    if count == 0 {
        return Err(SetupError::NoParticles);
    }
    if type_count == 0 {
        return Err(SetupError::NoTypes);
    }
    let top: i64 = if type_count as u64 > RANDOM_BOUND as u64 {
        RANDOM_BOUND
    } else {
        type_count as i64
    };
    let mut particles = Particles::new(cfg);
    let mut i: usize = 0;
    while i < count
        invariant
            cfg.valid(),
            particles.wf(),
            particles.indexed(),
            particles.fits(*cfg),
            i <= count,
            particles@.len() == i,
            1 <= top <= RANDOM_BOUND,
            top <= type_count,
            forall|k: int| 0 <= k < i ==> (#[trigger] particles@[k]).type_id < type_count,
            forall|k: int| 0 <= k < i ==> (#[trigger] particles@[k]).vel == (Vec2 { x: 0, y: 0 }),
        decreases count - i,
    {
        let x = random_coordinate(cfg.width);
        let y = random_coordinate(cfg.height);
        let drawn = random_between(0, top);
        let kind: usize = if drawn >= top {
            (top - 1) as usize
        } else {
            drawn as usize
        };
        particles.add_particle(Particle { pos: Vec2 { x, y }, vel: Vec2 { x: 0, y: 0 }, type_id: kind });
        i = i + 1;
    }
    Ok(particles)
}

/// A coordinate drawn uniformly from `[0, extent)`.
fn random_coordinate(extent: i64) -> (r: i64)
    requires
        0 < extent <= crate::config::EXTENT_LIMIT,
    ensures
        0 <= r < extent,
{
    let v = random_between(0, extent);
    if v >= extent {
        0
    } else {
        v
    }
}

} // verus!
