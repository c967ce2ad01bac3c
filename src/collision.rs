//! Swept (continuous) collision detection between two circular bodies that
//! move at constant velocity over one time interval.
use vstd::prelude::*;

use crate::vector::{dot, norm_sq, Vector};

verus! {

/// The velocity of a body; a body without one (a static body) is at rest.
pub open spec fn velocity_or_rest(v: Option<Vector>) -> (int, int) {
    match v {
        Some(v) => (v.x as int, v.y as int),
        None => (0, 0),
    }
}

/// Whether body B, at position `rel` relative to body A, comes within
/// `radius_sum` of A during the next `dt` time units, A moving at `va` and B
/// at `vb` (`None` for a static body).
///
/// Relative to A, B sits at `rel - t * dv` at time `t`, with `dv = va - vb`.
/// That squared distance is a quadratic in `t` whose minimum lies at
/// `t0 = (rel . dv) / |dv|^2`. With `s = |dv|^2` and `d = rel . dv`, the point
/// `s * (rel - t0 * dv) = s * rel - d * dv` is the closest relative position
/// scaled by `s`, so comparing its squared length against `radius_sum^2 * s^2`
/// is the exact closest-approach test, free of division.
///
/// - Two static bodies never collide.
/// - Bodies that already overlap (or touch) collide.
/// - Bodies without relative motion do not newly collide.
/// - Otherwise they collide exactly when `t0` lies in `(0, dt]` and the
///   separation at `t0` is at most `radius_sum`.
pub open spec fn will_collide_spec(
    dt: int,
    radius_sum: int,
    rel: Vector,
    va: Option<Vector>,
    vb: Option<Vector>,
) -> bool {
    if va is None && vb is None {
        false
    } else {
        let threshold = radius_sum * radius_sum;
        let dvx = velocity_or_rest(va).0 - velocity_or_rest(vb).0;
        let dvy = velocity_or_rest(va).1 - velocity_or_rest(vb).1;
        let s = norm_sq(dvx, dvy);
        let d = dot(rel.x as int, rel.y as int, dvx, dvy);
        if norm_sq(rel.x as int, rel.y as int) <= threshold {
            true
        } else if s == 0 {
            false
        } else if !(0 < d && d <= dt * s) {
            false
        } else {
            norm_sq(s * rel.x - d * dvx, s * rel.y - d * dvy) <= threshold * (s * s)
        }
    }
}

proof fn lemma_square_of_difference(a: int, b: int) by (nonlinear_arith)
    ensures
        (a - b) * (a - b) == a * a - 2 * (a * b) + b * b,
{
}

proof fn lemma_square_of_sum(a: int, b: int) by (nonlinear_arith)
    ensures
        (a + b) * (a + b) == a * a + 2 * (a * b) + b * b,
{
}

proof fn lemma_product_of_sums(a: int, b: int, c: int, e: int) by (nonlinear_arith)
    ensures
        (a + b) * (c + e) == a * c + a * e + b * c + b * e,
{
}

proof fn lemma_regroup(k: int, a: int, m: int, c: int) by (nonlinear_arith)
    ensures
        (k * a) * (m * c) == (k * m) * (a * c),
{
}

proof fn lemma_scaled_dot(k: int, a: int, b: int, m: int, c: int, e: int)
    ensures
        (k * a) * (m * c) + (k * b) * (m * e) == (k * m) * (a * c + b * e),
{
    lemma_regroup(k, a, m, c);
    lemma_regroup(k, b, m, e);
    vstd::arithmetic::mul::lemma_mul_is_distributive_add(k * m, a * c, b * e);
}

proof fn lemma_lagrange(rx: int, ry: int, vx: int, vy: int)
    ensures
        norm_sq(vx, vy) * norm_sq(rx, ry) - dot(rx, ry, vx, vy) * dot(rx, ry, vx, vy) == (rx * vy
            - ry * vx) * (rx * vy - ry * vx),
{
    let a = rx * vx;
    let b = ry * vy;
    let c = rx * vy;
    let e = ry * vx;
    lemma_square_of_sum(a, b);
    lemma_square_of_difference(c, e);
    lemma_product_of_sums(vx * vx, vy * vy, rx * rx, ry * ry);
    lemma_regroup(vx, vx, rx, rx);
    lemma_regroup(rx, vx, rx, vx);
    lemma_regroup(vx, vx, ry, ry);
    lemma_regroup(ry, vx, ry, vx);
    lemma_regroup(vy, vy, rx, rx);
    lemma_regroup(rx, vy, rx, vy);
    lemma_regroup(vy, vy, ry, ry);
    lemma_regroup(ry, vy, ry, vy);
    lemma_regroup(rx, vx, ry, vy);
    lemma_regroup(rx, vy, ry, vx);
    assert((vx * vx) * (rx * rx) == a * a);
    assert((vx * vx) * (ry * ry) == e * e);
    assert((vy * vy) * (rx * rx) == c * c);
    assert((vy * vy) * (ry * ry) == b * b);
    assert(a * b == c * e);
}

proof fn lemma_factor_out(s: int, q: int, d: int, c2: int) by (nonlinear_arith)
    requires
        s * q - d * d == c2,
    ensures
        (s * s) * q - 2 * ((s * d) * d) + (d * d) * s == s * c2,
{
}

/// Lagrange's identity in the plane, in the shape the closest-approach test
/// needs: `|s * r - d * v|^2 == s * (r x v)^2` where `s = |v|^2`, `d = r . v`.
proof fn lemma_scaled_closest(rx: int, ry: int, vx: int, vy: int)
    ensures
        norm_sq(
            norm_sq(vx, vy) * rx - dot(rx, ry, vx, vy) * vx,
            norm_sq(vx, vy) * ry - dot(rx, ry, vx, vy) * vy,
        ) == norm_sq(vx, vy) * ((rx * vy - ry * vx) * (rx * vy - ry * vx)),
{
    let s = norm_sq(vx, vy);
    let d = dot(rx, ry, vx, vy);
    let q = norm_sq(rx, ry);
    lemma_square_of_difference(s * rx, d * vx);
    lemma_square_of_difference(s * ry, d * vy);
    lemma_scaled_dot(s, rx, ry, s, rx, ry);
    lemma_scaled_dot(s, rx, ry, d, vx, vy);
    lemma_scaled_dot(d, vx, vy, d, vx, vy);
    lemma_lagrange(rx, ry, vx, vy);
    lemma_factor_out(s, q, d, (rx * vy - ry * vx) * (rx * vy - ry * vx));
}

proof fn lemma_cancel_positive(a: int, b: int, s: int)
    requires
        s > 0,
    ensures
        (s * a <= b * (s * s)) == (a <= b * s),
{
    assert((s * a <= b * (s * s)) == (a <= b * s)) by (nonlinear_arith)
        requires
            s > 0,
    ;
}

fn velocity_or_zero(v: Option<Vector>) -> (r: Vector)
    ensures
        (r.x as int, r.y as int) == velocity_or_rest(v),
{
    match v {
        Some(v) => v,
        None => Vector::zero(),
    }
}

/// Decides whether two circular bodies touch during the next `dt` time
/// units. `rel` is the position of body B relative to body A, `radius_sum` the
/// sum of their radii, and `va`, `vb` their velocities (`None` for a static
/// body). The test is exact: all arithmetic is carried out without rounding.
pub fn will_collide(
    dt: u32,
    radius_sum: u64,
    rel: Vector,
    va: Option<Vector>,
    vb: Option<Vector>,
) -> (r: bool)
    ensures
        r == will_collide_spec(dt as int, radius_sum as int, rel, va, vb),
{
    if va.is_none() && vb.is_none() {
        return false;
    }
    let a = velocity_or_zero(va);
    let b = velocity_or_zero(vb);
    assert((radius_sum as u128) * (radius_sum as u128) <= u128::MAX) by (nonlinear_arith)
        requires
            radius_sum <= u64::MAX,
    ;
    let threshold: u128 = (radius_sum as u128) * (radius_sum as u128);
    let rx = rel.x as i128;
    let ry = rel.y as i128;
    assert(0 <= rx * rx <= 0x4000_0000_0000_0000) by (nonlinear_arith)
        requires
            -0x8000_0000 <= rx <= 0x8000_0000,
    ;
    assert(0 <= ry * ry <= 0x4000_0000_0000_0000) by (nonlinear_arith)
        requires
            -0x8000_0000 <= ry <= 0x8000_0000,
    ;
    let dist: i128 = rx * rx + ry * ry;
    if dist as u128 <= threshold {
        return true;
    }
    let dvx: i128 = a.x as i128 - b.x as i128;
    let dvy: i128 = a.y as i128 - b.y as i128;
    assert(0 <= dvx * dvx <= 0x1_0000_0000_0000_0000) by (nonlinear_arith)
        requires
            -0x1_0000_0000 <= dvx <= 0x1_0000_0000,
    ;
    assert(0 <= dvy * dvy <= 0x1_0000_0000_0000_0000) by (nonlinear_arith)
        requires
            -0x1_0000_0000 <= dvy <= 0x1_0000_0000,
    ;
    let s: i128 = dvx * dvx + dvy * dvy;
    if s == 0 {
        return false;
    }
    assert(-0x1_0000_0000_0000_0000 <= rx * dvx <= 0x1_0000_0000_0000_0000) by (nonlinear_arith)
        requires
            -0x8000_0000 <= rx <= 0x8000_0000,
            -0x1_0000_0000 <= dvx <= 0x1_0000_0000,
    ;
    assert(-0x1_0000_0000_0000_0000 <= ry * dvy <= 0x1_0000_0000_0000_0000) by (nonlinear_arith)
        requires
            -0x8000_0000 <= ry <= 0x8000_0000,
            -0x1_0000_0000 <= dvy <= 0x1_0000_0000,
    ;
    let d: i128 = rx * dvx + ry * dvy;
    assert(0 <= (dt as i128) * s <= 0x1_0000_0000 * 0x2_0000_0000_0000_0000) by (nonlinear_arith)
        requires
            0 <= dt <= 0x1_0000_0000,
            0 <= s <= 0x2_0000_0000_0000_0000,
    ;
    if !(0 < d && d <= (dt as i128) * s) {
        return false;
    }
    assert(-0x8000_0000_0000_0000 < rx * dvy < 0x8000_0000_0000_0000) by (nonlinear_arith)
        requires
            -0x8000_0000 <= rx <= 0x8000_0000,
            -0xffff_ffff <= dvy <= 0xffff_ffff,
    ;
    assert(-0x8000_0000_0000_0000 < ry * dvx < 0x8000_0000_0000_0000) by (nonlinear_arith)
        requires
            -0x8000_0000 <= ry <= 0x8000_0000,
            -0xffff_ffff <= dvx <= 0xffff_ffff,
    ;
    let cross: i128 = rx * dvy - ry * dvx;
    let mag: u128 = if cross < 0 {
        (-cross) as u128
    } else {
        cross as u128
    };
    assert(mag * mag == cross * cross) by (nonlinear_arith)
        requires
            mag == cross || mag == -cross,
    ;
    assert(mag * mag <= u128::MAX) by (nonlinear_arith)
        requires
            mag <= 0x1_0000_0000_0000_0000 - 1,
    ;
    let c2: u128 = mag * mag;
    proof {
        lemma_scaled_closest(rx as int, ry as int, dvx as int, dvy as int);
        lemma_cancel_positive(c2 as int, threshold as int, s as int);
    }
    match threshold.checked_mul(s as u128) {
        None => true,
        Some(p) => c2 <= p,
    }
}

/// Bodies that already overlap or touch are reported as colliding whatever
/// their velocities, except that two static bodies never are.
pub proof fn lemma_overlap_collides(
    dt: int,
    radius_sum: int,
    rel: Vector,
    va: Option<Vector>,
    vb: Option<Vector>,
)
    requires
        norm_sq(rel.x as int, rel.y as int) <= radius_sum * radius_sum,
    ensures
        will_collide_spec(dt, radius_sum, rel, va, vb) == !(va is None && vb is None),
{
}

/// Bodies that are apart and whose relative motion does not bring them closer
/// (`rel . (va - vb) <= 0`) are never reported as colliding.
pub proof fn lemma_separating_bodies_miss(
    dt: int,
    radius_sum: int,
    rel: Vector,
    va: Option<Vector>,
    vb: Option<Vector>,
)
    requires
        norm_sq(rel.x as int, rel.y as int) > radius_sum * radius_sum,
        dot(
            rel.x as int,
            rel.y as int,
            velocity_or_rest(va).0 - velocity_or_rest(vb).0,
            velocity_or_rest(va).1 - velocity_or_rest(vb).1,
        ) <= 0,
    ensures
        !will_collide_spec(dt, radius_sum, rel, va, vb),
{
}

} // verus!
