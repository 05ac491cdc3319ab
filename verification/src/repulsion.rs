//! The inverse-square repulsion law and the theta acceptance test, shared by
//! both octree variants.

use vstd::prelude::*;
use vstd::arithmetic::div_mod::{
    lemma_div_is_ordered, lemma_div_is_ordered_by_denominator, lemma_div_denominator,
    lemma_div_multiples_vanish, lemma_div_nonincreasing, lemma_div_pos_is_pos,
};
use crate::vec3::{IVec3, Force3, dist_sq};
use crate::bounds::Bounds;
use crate::numeric::{abs_i, div_trunc, div_trunc_i128, isqrt, sqrt_floor, lemma_sqrt_floor,
    lemma_div_trunc_abs};
use crate::{COORD_LIMIT, COEFF_LIMIT, MIN_DISTANCE_SQ, POINT_MASS_LIMIT, TOTAL_MASS_LIMIT,
    THETA_LIMIT};

verus! {

/// Repulsion exerted on a query point of mass `mq` at `q` by an aggregate of
/// mass `ms` at `(sx, sy, sz)`, scaled by the coefficient `k`.
///
/// The contribution is `k * mq * ms / d^2` directed from the aggregate toward
/// the query point; pairs closer than the minimum separation contribute
/// nothing. Each component is computed exactly as
/// `k * mq * ms * delta / (d2 * sqrt_floor(d2))`, truncated toward zero.
pub open spec fn pair_force(q: IVec3, mq: int, sx: int, sy: int, sz: int, ms: int, k: int) -> (
    int,
    int,
    int,
) {
    let dx = q.x - sx;
    let dy = q.y - sy;
    let dz = q.z - sz;
    let d2 = dx * dx + dy * dy + dz * dz;
    if d2 < MIN_DISTANCE_SQ {
        (0, 0, 0)
    } else {
        let d = sqrt_floor(d2 as nat) as int;
        let t = k * mq * ms;
        (div_trunc(t * dx, d2 * d), div_trunc(t * dy, d2 * d), div_trunc(t * dz, d2 * d))
    }
}

/// The Barnes-Hut acceptance test: the cube's angular size seen from `q`
/// falls strictly below theta = `tn / td`. Written without square roots:
/// `2*half / dist < tn/td  <=>  (2*half*td)^2 < tn^2 * dist^2`.
pub open spec fn is_far(b: Bounds, q: IVec3, tn: int, td: int) -> bool {
    let a = 2 * b.half * td;
    a * a < tn * tn * dist_sq(b.center, q)
}

/// A squared distance is never negative.
pub proof fn lemma_dist_sq_nonneg(a: IVec3, b: IVec3)
    ensures
        dist_sq(a, b) >= 0,
{
    let dx = a.x - b.x;
    let dy = a.y - b.y;
    let dz = a.z - b.z;
    assert(dx * dx >= 0 && dy * dy >= 0 && dz * dz >= 0) by (nonlinear_arith);
}

/// Each component of a pairwise contribution is bounded by
/// `k*mq*ms / MIN_DISTANCE_SQ`, hence by `k*mq*ms`.
pub proof fn lemma_pair_force_bound(q: IVec3, mq: int, sx: int, sy: int, sz: int, ms: int, k: int)
    requires
        0 <= mq,
        0 <= ms,
        0 <= k,
    ensures
        abs_i(pair_force(q, mq, sx, sy, sz, ms, k).0) <= (k * mq * ms) / (MIN_DISTANCE_SQ as int),
        abs_i(pair_force(q, mq, sx, sy, sz, ms, k).1) <= (k * mq * ms) / (MIN_DISTANCE_SQ as int),
        abs_i(pair_force(q, mq, sx, sy, sz, ms, k).2) <= (k * mq * ms) / (MIN_DISTANCE_SQ as int),
        (k * mq * ms) / (MIN_DISTANCE_SQ as int) <= k * mq * ms,
{
    let t = k * mq * ms;
    assert(k * mq * ms >= 0) by (nonlinear_arith)
        requires
            0 <= mq,
            0 <= ms,
            0 <= k,
    ;
    lemma_div_nonincreasing(t, MIN_DISTANCE_SQ as int);
    lemma_div_pos_is_pos(t, MIN_DISTANCE_SQ as int);
    let dx = q.x - sx;
    let dy = q.y - sy;
    let dz = q.z - sz;
    let d2 = dx * dx + dy * dy + dz * dz;
    assert(dx * dx >= 0 && dy * dy >= 0 && dz * dz >= 0) by (nonlinear_arith);
    if d2 < MIN_DISTANCE_SQ {
    } else {
        lemma_sqrt_floor(d2 as nat);
        let d = sqrt_floor(d2 as nat) as int;
        assert(d * d <= d2 < (d + 1) * (d + 1));
        assert(d >= 10) by (nonlinear_arith)
            requires
                d >= 0,
                d2 >= 100,
                d2 < (d + 1) * (d + 1),
        ;
        lemma_component_bound(t, dx, d, d2);
        lemma_component_bound(t, dy, d, d2);
        lemma_component_bound(t, dz, d, d2);
        lemma_div_is_ordered_by_denominator(t, MIN_DISTANCE_SQ as int, d2);
    }
}

/// Helper: `|div_trunc(t*delta, d2*d)| <= t / d2` whenever `delta^2 <= d2`
/// and `d` is the floor square root of `d2`.
proof fn lemma_component_bound(t: int, delta: int, d: int, d2: int)
    requires
        t >= 0,
        d >= 10,
        d2 >= 100,
        delta * delta <= d2,
        d * d <= d2 < (d + 1) * (d + 1),
    ensures
        abs_i(div_trunc(t * delta, d2 * d)) <= t / d2,
{
    let den = d2 * d;
    assert(d2 * d >= 1000) by (nonlinear_arith)
        requires
            d >= 10,
            d2 >= 100,
    ;
    assert(abs_i(delta) <= d) by (nonlinear_arith)
        requires
            delta * delta <= d2,
            d2 < (d + 1) * (d + 1),
            d >= 0,
    ;
    lemma_div_trunc_abs(t * delta, den);
    assert(abs_i(t * delta) == t * abs_i(delta)) by (nonlinear_arith)
        requires
            t >= 0,
    ;
    assert(t * abs_i(delta) <= t * d) by (nonlinear_arith)
        requires
            t >= 0,
            abs_i(delta) <= d,
    ;
    lemma_div_is_ordered(t * abs_i(delta), t * d, den);
    assert((t * d) / (d * d2) == ((t * d) / d) / d2) by {
        lemma_div_denominator(t * d, d, d2);
    };
    assert(t * d == d * t) by (nonlinear_arith);
    lemma_div_multiples_vanish(t, d);
    assert((t * d) / d == t);
    assert(d2 * d == d * d2) by (nonlinear_arith);
    assert(abs_i(div_trunc(t * delta, den)) <= t / d2);
}

/// Lowering theta (making the test stricter) never turns a near node into a
/// far one: the acceptance test is monotone in theta.
pub proof fn lemma_far_monotone(b: Bounds, q: IVec3, tn1: int, td1: int, tn2: int, td2: int)
    requires
        b.wf(),
        0 <= tn1,
        1 <= td1,
        0 <= tn2,
        1 <= td2,
        tn1 * td2 <= tn2 * td1,
        is_far(b, q, tn1, td1),
    ensures
        is_far(b, q, tn2, td2),
{
    let h = 2 * b.half as int;
    let d2 = dist_sq(b.center, q);
    lemma_dist_sq_nonneg(b.center, q);
    assert((h * td1) * (h * td1) < tn1 * tn1 * d2);
    assert((h * td2) * (h * td2) * (td1 * td1) == (h * td1) * (h * td1) * (td2 * td2))
        by (nonlinear_arith);
    assert((h * td1) * (h * td1) * (td2 * td2) < (tn1 * tn1 * d2) * (td2 * td2))
        by (nonlinear_arith)
        requires
            (h * td1) * (h * td1) < tn1 * tn1 * d2,
            td2 >= 1,
    ;
    assert((tn1 * tn1 * d2) * (td2 * td2) == (tn1 * td2) * (tn1 * td2) * d2) by (nonlinear_arith);
    assert((tn1 * td2) * (tn1 * td2) * d2 <= (tn2 * td1) * (tn2 * td1) * d2) by (nonlinear_arith)
        requires
            0 <= tn1 * td2 <= tn2 * td1,
            d2 >= 0,
    ;
    assert(0 <= tn1 * td2) by (nonlinear_arith)
        requires
            0 <= tn1,
            1 <= td2,
    ;
    assert((tn2 * td1) * (tn2 * td1) * d2 == (tn2 * tn2 * d2) * (td1 * td1)) by (nonlinear_arith);
    assert((h * td2) * (h * td2) * (td1 * td1) < (tn2 * tn2 * d2) * (td1 * td1));
    assert((h * td2) * (h * td2) < tn2 * tn2 * d2) by (nonlinear_arith)
        requires
            (h * td2) * (h * td2) * (td1 * td1) < (tn2 * tn2 * d2) * (td1 * td1),
            td1 >= 1,
    ;
}

/// A point mass, as contributed by one occupied leaf of a tree.
pub struct PointMass {
    pub x: int,
    pub y: int,
    pub z: int,
    pub mass: int,
}

/// Exact pairwise force of a list of point masses on a query point: the
/// plain O(N^2)-style sum, with no tree approximation.
pub open spec fn pairwise_force(s: Seq<PointMass>, q: IVec3, mq: int, k: int) -> (int, int, int)
    decreases s.len(),
{
    if s.len() == 0 {
        (0, 0, 0)
    } else {
        let f = pair_force(q, mq, s[0].x, s[0].y, s[0].z, s[0].mass, k);
        let rest = pairwise_force(s.drop_first(), q, mq, k);
        (f.0 + rest.0, f.1 + rest.1, f.2 + rest.2)
    }
}

/// The pairwise sum splits over concatenation.
pub proof fn lemma_pairwise_concat(s1: Seq<PointMass>, s2: Seq<PointMass>, q: IVec3, mq: int,
    k: int)
    ensures
        pairwise_force(s1 + s2, q, mq, k).0 == pairwise_force(s1, q, mq, k).0 + pairwise_force(
            s2, q, mq, k).0,
        pairwise_force(s1 + s2, q, mq, k).1 == pairwise_force(s1, q, mq, k).1 + pairwise_force(
            s2, q, mq, k).1,
        pairwise_force(s1 + s2, q, mq, k).2 == pairwise_force(s1, q, mq, k).2 + pairwise_force(
            s2, q, mq, k).2,
    decreases s1.len(),
{
    if s1.len() == 0 {
        assert(s1 + s2 =~= s2);
    } else {
        assert((s1 + s2).drop_first() =~= s1.drop_first() + s2);
        assert((s1 + s2)[0] == s1[0]);
        lemma_pairwise_concat(s1.drop_first(), s2, q, mq, k);
    }
}

/// Evaluates the acceptance test exactly.
pub fn far_test(b: &Bounds, q: IVec3, theta_num: i64, theta_den: i64) -> (r: bool)
    requires
        b.wf(),
        q.bounded(COORD_LIMIT as int),
        0 <= theta_num <= THETA_LIMIT,
        1 <= theta_den <= THETA_LIMIT,
    ensures
        r == is_far(*b, q, theta_num as int, theta_den as int),
{
    let dx: i64 = b.center.x - q.x;
    let dy: i64 = b.center.y - q.y;
    let dz: i64 = b.center.z - q.z;
    proof {
        lemma_square_bound(dx as int);
        lemma_square_bound(dy as int);
        lemma_square_bound(dz as int);
    }
    let d2: i128 = (dx as i128) * (dx as i128) + (dy as i128) * (dy as i128) + (dz as i128) * (
    dz as i128);
    proof {
        assert((2 * (b.half as int)) * (theta_den as int) <= 2_000_000_000_000_000)
            by (nonlinear_arith)
            requires
                0 < b.half <= 1_000_000_000,
                1 <= theta_den <= 1_000_000,
        ;
        assert((2 * (b.half as int)) * (theta_den as int) >= 0) by (nonlinear_arith)
            requires
                0 < b.half,
                1 <= theta_den,
        ;
    }
    let a: i128 = 2 * (b.half as i128) * (theta_den as i128);
    let tn: i128 = theta_num as i128;
    proof {
        assert(a * a < 0x8000_0000_0000_0000_0000_0000_0000_0000) by (nonlinear_arith)
            requires
                0 <= a <= 2_000_000_000_000_000,
        ;
        assert(0 <= tn * tn <= 1_000_000_000_000) by (nonlinear_arith)
            requires
                0 <= tn <= 1_000_000,
        ;
        assert(tn * tn * d2 < 0x8000_0000_0000_0000_0000_0000_0000_0000 && tn * tn * d2
            > -0x8000_0000_0000_0000_0000_0000_0000_0000) by (nonlinear_arith)
            requires
                0 <= tn * tn <= 1_000_000_000_000,
                -12_000_000_000_000_000_000 <= d2 <= 12_000_000_000_000_000_000,
        ;
    }
    a * a < tn * tn * d2
}

/// `|x| <= 2*COORD_LIMIT` implies `x*x <= (2*COORD_LIMIT)^2`.
proof fn lemma_square_bound(x: int)
    requires
        -2_000_000_000 <= x <= 2_000_000_000,
    ensures
        0 <= x * x <= 4_000_000_000_000_000_000,
{
    assert(0 <= x * x <= 4_000_000_000_000_000_000) by (nonlinear_arith)
        requires
            -2_000_000_000 <= x <= 2_000_000_000,
    ;
}

/// Adds the contribution of one aggregate to the force accumulator.
///
/// Mirrors the classic pairwise kernel: skip pairs below the minimum
/// separation, otherwise push the query point away from the aggregate with
/// magnitude `k * mq * ms / d^2`.
pub(crate) fn accumulate_pair(q: IVec3, mq: i64, s: IVec3, ms: i64, k: i64, out: &mut Force3)
    requires
        q.bounded(COORD_LIMIT as int),
        s.bounded(COORD_LIMIT as int),
        0 <= mq <= POINT_MASS_LIMIT,
        0 <= ms <= TOTAL_MASS_LIMIT,
        0 <= k <= COEFF_LIMIT,
        old(out).x + (k * mq) * ms <= i128::MAX,
        old(out).x - (k * mq) * ms >= i128::MIN,
        old(out).y + (k * mq) * ms <= i128::MAX,
        old(out).y - (k * mq) * ms >= i128::MIN,
        old(out).z + (k * mq) * ms <= i128::MAX,
        old(out).z - (k * mq) * ms >= i128::MIN,
    ensures
        final(out).x == old(out).x + pair_force(
            q,
            mq as int,
            s.x as int,
            s.y as int,
            s.z as int,
            ms as int,
            k as int,
        ).0,
        final(out).y == old(out).y + pair_force(
            q,
            mq as int,
            s.x as int,
            s.y as int,
            s.z as int,
            ms as int,
            k as int,
        ).1,
        final(out).z == old(out).z + pair_force(
            q,
            mq as int,
            s.x as int,
            s.y as int,
            s.z as int,
            ms as int,
            k as int,
        ).2,
{
    let dx: i64 = q.x - s.x;
    let dy: i64 = q.y - s.y;
    let dz: i64 = q.z - s.z;
    proof {
        lemma_square_bound(dx as int);
        lemma_square_bound(dy as int);
        lemma_square_bound(dz as int);
    }
    let d2: i128 = (dx as i128) * (dx as i128) + (dy as i128) * (dy as i128) + (dz as i128) * (
    dz as i128);
    if d2 < MIN_DISTANCE_SQ as i128 {
        return ;
    }
    assert(d2 <= 12_000_000_000_000_000_000 < u64::MAX);
    let d_u: u64 = isqrt(d2 as u64);
    proof {
        lemma_sqrt_floor(d2 as nat);
        assert(d_u as int * (d_u as int) <= d2);
        assert(d_u <= 4_000_000_000) by (nonlinear_arith)
            requires
                0 <= d_u,
                d_u as int * (d_u as int) <= 12_000_000_000_000_000_000,
        ;
        assert(d_u >= 10) by (nonlinear_arith)
            requires
                0 <= d_u,
                d2 >= 100,
                d2 < (d_u as int + 1) * (d_u as int + 1),
        ;
    }
    let d: i128 = d_u as i128;
    proof {
        assert(0 <= (k as int) * (mq as int) <= 1_000_000_000_000_000_000) by (nonlinear_arith)
            requires
                0 <= k <= 1_000_000_000_000,
                0 <= mq <= 1_000_000,
        ;
    }
    let t: i128 = (k as i128) * (mq as i128) * (ms as i128);
    proof {
        assert(0 <= t <= 10_000_000_000_000_000_000_000_000) by (nonlinear_arith)
            requires
                t == ((k as int) * (mq as int)) * (ms as int),
                0 <= (k as int) * (mq as int) <= 1_000_000_000_000_000_000,
                0 <= ms <= 10_000_000,
        ;
        assert(d2 * d <= 48_000_000_000_000_000_000_000_000_000 && d2 * d >= 1000)
            by (nonlinear_arith)
            requires
                100 <= d2 <= 12_000_000_000_000_000_000,
                10 <= d <= 4_000_000_000,
        ;
        lemma_mul_bound_gen(t as int, dx as int);
        lemma_mul_bound_gen(t as int, dy as int);
        lemma_mul_bound_gen(t as int, dz as int);
    }
    let den: i128 = d2 * d;
    let fx: i128 = div_trunc_i128(t * (dx as i128), den);
    let fy: i128 = div_trunc_i128(t * (dy as i128), den);
    let fz: i128 = div_trunc_i128(t * (dz as i128), den);
    proof {
        lemma_pair_force_bound(q, mq as int, s.x as int, s.y as int, s.z as int, ms as int,
            k as int);
        assert((k as int * (mq as int)) * (ms as int) == t);
    }
    out.x = out.x + fx;
    out.y = out.y + fy;
    out.z = out.z + fz;
}

/// `|t * delta|` stays within i128 for the magnitudes the limits admit.
proof fn lemma_mul_bound_gen(t: int, delta: int)
    requires
        0 <= t <= 10_000_000_000_000_000_000_000_000,
        -2_000_000_000 <= delta <= 2_000_000_000,
    ensures
        -0x8000_0000_0000_0000_0000_0000_0000_0000 < t * delta
            < 0x8000_0000_0000_0000_0000_0000_0000_0000,
{
    assert(-20_000_000_000_000_000_000_000_000_000_000_000 <= t * delta
        <= 20_000_000_000_000_000_000_000_000_000_000_000) by (nonlinear_arith)
        requires
            0 <= t <= 10_000_000_000_000_000_000_000_000,
            -2_000_000_000 <= delta <= 2_000_000_000,
    ;
}

} // verus!
