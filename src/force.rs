//! The pairwise force law on the periodic domain.
use vstd::prelude::*;
use crate::config::{SimConfig, EXTENT_LIMIT, FORCE_LIMIT};
use crate::fixed::{
    abs, div_toward_zero, floor_sqrt, isqrt, lemma_below_floor_sqrt, lemma_floor_sqrt_is, lemma_floor_sqrt_monotone,
    lemma_trunc_div_bound, trunc_div, Vec2, ONE,
};

verus! {

/// The shorter of the direct and the wrapped-around displacement along one
/// axis of extent `extent` (minimum-image convention).
pub open spec fn min_image(d: int, extent: int) -> int {
    if d * 2 > extent {
        d - extent
    } else if d * 2 < -extent {
        d + extent
    } else {
        d
    }
}

/// Minimum-image correction of a raw displacement between two positions of
/// the domain.
pub fn wrap_displacement(d: i64, extent: i64) -> (r: i64)
    requires
        0 < extent <= EXTENT_LIMIT,
        -extent < d < extent,
    ensures
        r == min_image(d as int, extent as int),
{
    if d > extent - d {
        d - extent
    } else if d < -extent - d {
        d + extent
    } else {
        d
    }
}

/// The velocity change that a neighbour at corrected displacement `(dx, dy)`
/// causes on a particle whose attraction toward the neighbour's type is
/// `coef` (fixed point, `ONE` is 1.0). Below `min_distance` the particles
/// repel each other whatever their types; from there up to `max_distance`
/// the tent profile `1 - |dist - mid| / (max - min)` scales the attraction;
/// coincident particles and particles at or beyond `max_distance` do not
/// interact. Each component is rounded toward zero.
pub open spec fn force_on(cfg: SimConfig, coef: int, dx: int, dy: int) -> (int, int) {
    let dist = floor_sqrt(dx * dx + dy * dy);
    let lo = cfg.min_distance as int;
    let hi = cfg.max_distance as int;
    if dist == 0 {
        (0, 0)
    } else if dist < lo {
        let scale = -(cfg.repel_constant as int) * (lo - dist);
        let den = dist * lo;
        (trunc_div(scale * dx, den), trunc_div(scale * dy, den))
    } else if dist < hi {
        let span = 2 * (hi - lo);
        let scale = (cfg.attract_constant as int) * coef * (span - abs(2 * dist - lo - hi));
        let den = ONE * span * dist;
        (trunc_div(scale * dx, den), trunc_div(scale * dy, den))
    } else {
        (0, 0)
    }
}

proof fn lemma_mul_le(a: int, b: int, c: int, d: int)
    requires
        0 <= a <= b,
        0 <= c <= d,
    ensures
        0 <= a * c <= b * d,
{
    assert(0 <= a * c <= b * d) by (nonlinear_arith)
        requires 0 <= a <= b, 0 <= c <= d;
}

proof fn lemma_abs_mul(a: int, b: int)
    ensures
        abs(a * b) == abs(a) * abs(b),
{
    assert(abs(a * b) == abs(a) * abs(b)) by (nonlinear_arith);
}

/// Magnitudes in the repulsion branch: the numerators fit in `i128` and the
/// quotient is bounded by the repulsion constant.
proof fn lemma_repel_bounds(repel: int, lo: int, dist: int, d: int)
    requires
        abs(repel) <= FORCE_LIMIT,
        0 < dist < lo <= EXTENT_LIMIT,
        abs(d) <= dist,
        abs(d) <= 0x8_0000_0000,
    ensures
        abs(-repel * (lo - dist)) <= 0x10_0000_0000_0000_0000,
        abs(-repel * (lo - dist) * d) <= 0x80_0000_0000_0000_0000_0000_0000,
        0 < dist * lo <= 0x100_0000_0000_0000_0000,
        abs(trunc_div(-repel * (lo - dist) * d, dist * lo)) <= abs(repel),
{
    let s = -repel * (lo - dist);
    lemma_abs_mul(-repel, lo - dist);
    lemma_abs_mul(s, d);
    lemma_mul_le(abs(repel), FORCE_LIMIT as int, lo - dist, EXTENT_LIMIT as int);
    lemma_mul_le(abs(s), 0x10_0000_0000_0000_0000, abs(d), 0x8_0000_0000);
    lemma_mul_le(dist, EXTENT_LIMIT as int, lo, EXTENT_LIMIT as int);
    assert(0 < dist * lo) by (nonlinear_arith)
        requires 0 < dist, 0 < lo;
    lemma_mul_le(abs(repel), abs(repel), lo - dist, lo);
    lemma_mul_le(abs(repel) * (lo - dist), abs(repel) * lo, abs(d), dist);
    assert(abs(repel) * lo * dist == abs(repel) * (dist * lo)) by (nonlinear_arith);
    lemma_trunc_div_bound(s * d, dist * lo, abs(repel));
}

/// Magnitudes in the attraction branch.
proof fn lemma_attract_bounds(attract: int, coef: int, lo: int, hi: int, dist: int, d: int)
    requires
        abs(attract) <= FORCE_LIMIT,
        abs(coef) <= ONE,
        0 <= lo <= dist < hi <= EXTENT_LIMIT,
        0 < dist,
        abs(d) <= dist,
        abs(d) <= 0x8_0000_0000,
    ensures
        ({
            let span = 2 * (hi - lo);
            let fac = span - abs(2 * dist - lo - hi);
            let s = attract * coef * fac;
            &&& 0 <= fac <= span
            &&& abs(attract * coef) <= 0x10_0000_0000_0000
            &&& abs(s) <= 0x200_0000_0000_0000_0000_0000
            &&& abs(s * d) <= 0x1000_0000_0000_0000_0000_0000_0000_0000
            &&& 0 < ONE * span
            &&& ONE * span <= 0x200_0000_0000_0000
            &&& 0 < ONE * span * dist <= 0x2000_0000_0000_0000_0000_0000
            &&& abs(trunc_div(s * d, ONE * span * dist)) <= abs(attract)
        }),
{
    let span = 2 * (hi - lo);
    let fac = span - abs(2 * dist - lo - hi);
    let ac = attract * coef;
    let s = ac * fac;
    lemma_abs_mul(attract, coef);
    lemma_abs_mul(ac, fac);
    lemma_abs_mul(s, d);
    lemma_mul_le(abs(attract), FORCE_LIMIT as int, abs(coef), 0x10_0000);
    lemma_mul_le(abs(ac), 0x10_0000_0000_0000, fac, 0x20_0000_0000);
    lemma_mul_le(abs(s), 0x200_0000_0000_0000_0000_0000, abs(d), 0x8_0000_0000);
    lemma_mul_le(ONE as int, 0x10_0000, span, 0x20_0000_0000);
    lemma_mul_le(ONE * span, 0x200_0000_0000_0000, dist, EXTENT_LIMIT as int);
    assert(0 < ONE * span * dist) by (nonlinear_arith)
        requires 0 < span, 0 < dist, ONE > 0;
    lemma_mul_le(abs(attract), abs(attract), abs(coef), ONE as int);
    lemma_mul_le(abs(ac), abs(attract) * ONE, fac, span);
    lemma_mul_le(abs(s), abs(attract) * ONE * span, abs(d), dist);
    assert(abs(attract) * ONE * span * dist == abs(attract) * (ONE * span * dist))
        by (nonlinear_arith);
    lemma_trunc_div_bound(s * d, ONE * span * dist, abs(attract));
}

/// Evaluates `force_on` for one neighbour.
pub fn force_between(cfg: &SimConfig, coef: i64, dx: i64, dy: i64) -> (r: Vec2)
    requires
        cfg.valid(),
        -ONE <= coef <= ONE,
        abs(dx as int) * 2 <= cfg.width,
        abs(dy as int) * 2 <= cfg.height,
    ensures
        (r.x as int, r.y as int) == force_on(*cfg, coef as int, dx as int, dy as int),
        abs(r.x as int) <= FORCE_LIMIT,
        abs(r.y as int) <= FORCE_LIMIT,
{
    let ghost gx = dx as int;
    let ghost gy = dy as int;
    proof {
        lemma_mul_le(abs(gx), 0x8_0000_0000, abs(gx), 0x8_0000_0000);
        lemma_mul_le(abs(gy), 0x8_0000_0000, abs(gy), 0x8_0000_0000);
        assert(gx * gx == abs(gx) * abs(gx)) by (nonlinear_arith);
        assert(gy * gy == abs(gy) * abs(gy)) by (nonlinear_arith);
        assert(0x8_0000_0000int * 0x8_0000_0000int == 0x40_0000_0000_0000_0000int);
    }
    let sq: u128 = (dx as i128 * dx as i128) as u128 + (dy as i128 * dy as i128) as u128;
    let dist64 = isqrt(sq);
    let ghost n = gx * gx + gy * gy;
    proof {
        assert(gx * gx >= 0) by (nonlinear_arith);
        assert(gy * gy >= 0) by (nonlinear_arith);
        lemma_floor_sqrt_monotone(gx * gx, n);
        lemma_floor_sqrt_monotone(gy * gy, n);
        lemma_below_floor_sqrt(gx * gx, abs(gx));
        lemma_below_floor_sqrt(gy * gy, abs(gy));
        lemma_floor_sqrt_monotone(n, 0x80_0000_0000_0000_0000);
        lemma_below_floor_sqrt(0x80_0000_0000_0000_0000, 0);
        assert(floor_sqrt(0x80_0000_0000_0000_0000) < 0x10_0000_0000) by {
            lemma_floor_sqrt_is(0x80_0000_0000_0000_0000, 0xb_504f_333f);
        }
    }
    let dist: i128 = dist64 as i128;
    let lo: i128 = cfg.min_distance as i128;
    let hi: i128 = cfg.max_distance as i128;
    if dist == 0 {
        Vec2 { x: 0, y: 0 }
    } else if dist < lo {
        proof {
            lemma_repel_bounds(cfg.repel_constant as int, lo as int, dist as int, gx);
            lemma_repel_bounds(cfg.repel_constant as int, lo as int, dist as int, gy);
        }
        let scale: i128 = -(cfg.repel_constant as i128) * (lo - dist);
        let den: i128 = dist * lo;
        let rx = div_toward_zero(scale * dx as i128, den);
        let ry = div_toward_zero(scale * dy as i128, den);
        Vec2 { x: rx as i64, y: ry as i64 }
    } else if dist < hi {
        proof {
            lemma_attract_bounds(cfg.attract_constant as int, coef as int, lo as int, hi as int, dist as int, gx);
            lemma_attract_bounds(cfg.attract_constant as int, coef as int, lo as int, hi as int, dist as int, gy);
        }
        let span: i128 = 2 * (hi - lo);
        let off: i128 = 2 * dist - lo - hi;
        let off_abs: i128 = if off >= 0 { off } else { -off };
        let scale: i128 = cfg.attract_constant as i128 * coef as i128 * (span - off_abs);
        let den: i128 = ONE as i128 * span * dist;
        let rx = div_toward_zero(scale * dx as i128, den);
        let ry = div_toward_zero(scale * dy as i128, den);
        Vec2 { x: rx as i64, y: ry as i64 }
    } else {
        Vec2 { x: 0, y: 0 }
    }
}

} // verus!

verus! {

/// The minimum-image displacement between two points of an axis is never
/// longer than half the axis.
pub proof fn lemma_min_image_bound(d: int, extent: int)
    requires
        extent > 0,
        -extent < d < extent,
    ensures
        abs(min_image(d, extent)) * 2 <= extent,
        -extent < min_image(d, extent) < extent,
{
}

/// Pairs at or beyond the interaction cutoff do not interact: when the
/// squared corrected distance is at least `max_distance` squared, the force
/// law gives exactly zero.
pub proof fn lemma_cutoff_locality(cfg: SimConfig, coef: int, dx: int, dy: int)
    requires
        cfg.valid(),
        dx * dx + dy * dy >= cfg.max_distance * cfg.max_distance,
    ensures
        force_on(cfg, coef, dx, dy) == (0int, 0int),
{
    assert(dx * dx + dy * dy >= 0) by (nonlinear_arith);
    lemma_below_floor_sqrt(dx * dx + dy * dy, cfg.max_distance as int);
}

} // verus!
