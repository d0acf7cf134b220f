//! Particle types and their attraction table.
use vstd::prelude::*;
use crate::fixed::ONE;

verus! {

/// A particle type: its attraction toward every type, itself included, in
/// fixed point within `[-ONE, ONE]`. Attraction need not be symmetric.
pub struct ParticleType {
    pub attraction: Vec<i64>,
}

impl ParticleType {
    pub fn new(attraction: Vec<i64>) -> (r: ParticleType)
        ensures
            r.attraction@ == attraction@,
    {
        ParticleType { attraction }
    }
}

/// The attraction table as a matrix: row `a` holds type `a`'s coefficients.
pub open spec fn matrix(types: Seq<ParticleType>) -> Seq<Seq<i64>> {
    types.map_values(|t: ParticleType| t.attraction@)
}

/// At least one type, a square table, every coefficient in `[-ONE, ONE]`.
pub open spec fn table_wf(types: Seq<ParticleType>) -> bool {
    &&& types.len() >= 1
    &&& forall|a: int| 0 <= a < types.len() ==> (#[trigger] types[a]).attraction@.len() == types.len()
    &&& forall|a: int, b: int|
        0 <= a < types.len() && 0 <= b < types.len() ==> -ONE <= #[trigger] types[a].attraction@[b]
            <= ONE
}

/// `v` limited to `[-ONE, ONE]`.
pub open spec fn clamp_unit(v: int) -> int {
    if v > ONE {
        ONE as int
    } else if v < -ONE {
        -ONE as int
    } else {
        v
    }
}

/// Sets the attraction of type `a` toward type `b` to `value`, clamped to
/// `[-ONE, ONE]`.
pub fn set_attraction(types: &mut Vec<ParticleType>, a: usize, b: usize, value: i64)
    requires
        a < old(types)@.len(),
        b < old(types)@[a as int].attraction@.len(),
    ensures
        final(types)@.len() == old(types)@.len(),
        matrix(final(types)@) == matrix(old(types)@).update(
            a as int,
            matrix(old(types)@)[a as int].update(b as int, clamp_unit(value as int) as i64),
        ),
        table_wf(old(types)@) ==> table_wf(final(types)@),
{
    let v: i64 = if value > ONE {
        ONE
    } else if value < -ONE {
        -ONE
    } else {
        value
    };
    let ghost before = types@;
    types[a].attraction.set(b, v);
    proof {
        assert(matrix(types@) =~= matrix(before).update(
            a as int,
            matrix(before)[a as int].update(b as int, v),
        ));
        if table_wf(before) {
            assert forall|i: int| 0 <= i < types@.len() implies (#[trigger] types@[i]).attraction@.len()
                == types@.len() by {
                if i != a {
                    assert(types@[i] == before[i]);
                }
            }
            assert forall|i: int, j: int|
                0 <= i < types@.len() && 0 <= j < types@.len() implies -ONE
                <= #[trigger] types@[i].attraction@[j] <= ONE by {
                if i != a {
                    assert(types@[i] == before[i]);
                }
            }
        }
    }
}

/// Moves the attraction of type `a` toward type `b` by `delta`, staying
/// within `[-ONE, ONE]`.
pub fn nudge_attraction(types: &mut Vec<ParticleType>, a: usize, b: usize, delta: i64)
    requires
        a < old(types)@.len(),
        b < old(types)@[a as int].attraction@.len(),
    ensures
        final(types)@.len() == old(types)@.len(),
        matrix(final(types)@) == matrix(old(types)@).update(
            a as int,
            matrix(old(types)@)[a as int].update(
                b as int,
                clamp_unit(old(types)@[a as int].attraction@[b as int] + delta) as i64,
            ),
        ),
        table_wf(old(types)@) ==> table_wf(final(types)@),
{
    let current = types[a].attraction[b];
    let target = current as i128 + delta as i128;
    let v: i64 = if target > ONE as i128 {
        ONE
    } else if target < -ONE as i128 {
        -ONE
    } else {
        target as i64
    };
    set_attraction(types, a, b, v);
}

} // verus!
