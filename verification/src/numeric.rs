//! Exact integer helpers shared by both octree variants: floor square
//! root, division truncated toward zero, and powers of two.

use vstd::prelude::*;
use vstd::arithmetic::div_mod::{
    lemma_div_is_ordered, lemma_div_is_ordered_by_denominator, lemma_div_denominator,
    lemma_div_multiples_vanish, lemma_div_nonincreasing, lemma_fundamental_div_mod,
    lemma_div_pos_is_pos, lemma_div_is_strictly_smaller, lemma_div_by_self,
};

verus! {

/// Magnitude of a mathematical integer.
pub open spec fn abs_i(a: int) -> int {
    if a >= 0 { a } else { -a }
}

/// 2^e.
pub open spec fn pow2i(e: nat) -> int
    decreases e,
{
    if e == 0 { 1 } else { 2 * pow2i((e - 1) as nat) }
}

pub proof fn lemma_pow2i_pos(e: nat)
    ensures
        pow2i(e) >= 1,
    decreases e,
{
    if e > 0 {
        lemma_pow2i_pos((e - 1) as nat);
    }
}

/// A value divisible by 2^(e+1) is even, and its half is divisible by 2^e.
pub proof fn lemma_halve_divisibility(x: int, e: nat)
    requires
        x % pow2i((e + 1) as nat) == 0,
        x >= 0,
    ensures
        x % 2 == 0,
        (x / 2) % pow2i(e) == 0,
{
    let p = pow2i(e);
    lemma_pow2i_pos(e);
    assert(pow2i((e + 1) as nat) == 2 * p);
    lemma_fundamental_div_mod(x, 2 * p);
    let m = x / (2 * p);
    assert(x == 2 * p * m);
    assert(x == (p * m) * 2) by (nonlinear_arith)
        requires
            x == 2 * p * m,
    ;
    assert(x % 2 == 0) by (nonlinear_arith)
        requires
            x == (p * m) * 2,
    ;
    assert(x / 2 == p * m) by (nonlinear_arith)
        requires
            x == (p * m) * 2,
    ;
    assert((p * m) % p == 0) by (nonlinear_arith)
        requires
            p >= 1,
    ;
}

/// Floor of the square root of a natural number.
#[verifier::opaque]
pub open spec fn sqrt_floor(n: nat) -> nat
    decreases n,
{
    if n == 0 {
        0
    } else {
        let r = sqrt_floor((n - 1) as nat);
        if (r + 1) * (r + 1) <= n { r + 1 } else { r }
    }
}

pub proof fn lemma_sqrt_floor(n: nat)
    ensures
        sqrt_floor(n) * sqrt_floor(n) <= n,
        n < (sqrt_floor(n) + 1) * (sqrt_floor(n) + 1),
    decreases n,
{
    reveal(sqrt_floor);
    if n == 0 {
        assert(sqrt_floor(0) == 0);
        assert(sqrt_floor(n) * sqrt_floor(n) <= n);
        assert(n < (sqrt_floor(n) + 1) * (sqrt_floor(n) + 1)) by (nonlinear_arith)
            requires
                n == 0,
                sqrt_floor(n) == 0,
        ;
    } else {
        lemma_sqrt_floor((n - 1) as nat);
        let r = sqrt_floor((n - 1) as nat);
        assert(r * r <= n - 1);
        assert(n - 1 < (r + 1) * (r + 1));
        if (r + 1) * (r + 1) <= n {
            assert(sqrt_floor(n) == r + 1);
            assert(n <= (r + 1) * (r + 1));
            assert(n < (r + 2) * (r + 2)) by (nonlinear_arith)
                requires
                    n <= (r + 1) * (r + 1),
            ;
            assert(sqrt_floor(n) * sqrt_floor(n) <= n);
            assert(n < (sqrt_floor(n) + 1) * (sqrt_floor(n) + 1));
        } else {
            assert(sqrt_floor(n) == r);
            assert(sqrt_floor(n) * sqrt_floor(n) <= n);
            assert(n < (sqrt_floor(n) + 1) * (sqrt_floor(n) + 1));
        }
    }
}

/// The floor square root is the only r with r^2 <= n < (r+1)^2.
pub proof fn lemma_sqrt_unique(n: nat, r: nat)
    requires
        r * r <= n,
        n < (r + 1) * (r + 1),
    ensures
        r == sqrt_floor(n),
{
    lemma_sqrt_floor(n);
    let s = sqrt_floor(n);
    if r < s {
        assert(false) by (nonlinear_arith)
            requires
                r < s,
                s * s <= n,
                n < (r + 1) * (r + 1),
        ;
    }
    if s < r {
        assert(false) by (nonlinear_arith)
            requires
                s < r,
                r * r <= n,
                n < (s + 1) * (s + 1),
        ;
    }
}

/// Floor square root by bisection.
pub fn isqrt(n: u64) -> (r: u64)
    ensures
        r == sqrt_floor(n as nat),
{
    let mut lo: u64 = 0;
    let mut hi: u64 = 4_294_967_296;
    assert((4_294_967_296int) * 4_294_967_296 > u64::MAX);
    while hi - lo > 1
        invariant
            lo < hi <= 4_294_967_296,
            (lo as int) * (lo as int) <= n as int,
            (n as int) < (hi as int) * (hi as int),
        decreases hi - lo,
    {
        let gap: u64 = hi - lo;
        let half_gap: u64 = gap / 2;
        proof {
            lemma_div_is_strictly_smaller(gap as int, 2);
            lemma_div_is_ordered(2, gap as int, 2);
            lemma_div_by_self(2);
        }
        assert(1 <= half_gap < gap);
        let mid: u64 = lo + half_gap;
        assert((mid as int) * (mid as int) <= u128::MAX) by (nonlinear_arith)
            requires
                0 <= mid <= 4_294_967_296,
        ;
        let sq: u128 = (mid as u128) * (mid as u128);
        if sq <= n as u128 {
            lo = mid;
        } else {
            hi = mid;
        }
    }
    proof {
        assert(hi == lo + 1);
        lemma_sqrt_unique(n as nat, lo as nat);
    }
    lo
}

/// Division truncated toward zero, for a positive divisor.
pub open spec fn div_trunc(a: int, b: int) -> int {
    if a >= 0 { a / b } else { -((-a) / b) }
}

pub proof fn lemma_div_trunc_abs(a: int, b: int)
    requires
        1 <= b,
    ensures
        abs_i(div_trunc(a, b)) == abs_i(a) / b,
        abs_i(div_trunc(a, b)) <= abs_i(a),
{
    if a >= 0 {
        lemma_div_pos_is_pos(a, b);
        lemma_div_nonincreasing(a, b);
    } else {
        lemma_div_pos_is_pos(-a, b);
        lemma_div_nonincreasing(-a, b);
    }
}

/// If b*lo <= a <= b*hi then the truncated quotient lies in [lo, hi].
pub proof fn lemma_div_trunc_range(a: int, b: int, lo: int, hi: int)
    requires
        1 <= b,
        b * lo <= a,
        a <= b * hi,
    ensures
        lo <= div_trunc(a, b) <= hi,
{
    lemma_fundamental_div_mod(a, b);
    lemma_fundamental_div_mod(-a, b);
    if a >= 0 {
        assert(lo <= a / b) by (nonlinear_arith)
            requires
                1 <= b,
                b * lo <= a,
                a == b * (a / b) + a % b,
                0 <= a % b < b,
        ;
        assert(a / b <= hi) by (nonlinear_arith)
            requires
                1 <= b,
                a <= b * hi,
                a == b * (a / b) + a % b,
                0 <= a % b < b,
        ;
    } else {
        let q = (-a) / b;
        assert(lo <= -q) by (nonlinear_arith)
            requires
                1 <= b,
                b * lo <= a,
                -a == b * q + (-a) % b,
                0 <= (-a) % b < b,
        ;
        assert(-q <= hi) by (nonlinear_arith)
            requires
                1 <= b,
                a <= b * hi,
                a < 0,
                -a == b * q + (-a) % b,
                0 <= (-a) % b < b,
        ;
    }
}

/// Division truncated toward zero on 64-bit values.
pub fn div_trunc_i64(a: i64, b: i64) -> (q: i64)
    requires
        1 <= b,
        -0x7fff_ffff_ffff_ffff <= a,
    ensures
        q == div_trunc(a as int, b as int),
{
    if a >= 0 {
        proof {
            lemma_div_pos_is_pos(a as int, b as int);
            lemma_div_nonincreasing(a as int, b as int);
        }
        ((a as u64) / (b as u64)) as i64
    } else {
        proof {
            lemma_div_pos_is_pos(-(a as int), b as int);
            lemma_div_nonincreasing(-(a as int), b as int);
        }
        let m = ((-a) as u64) / (b as u64);
        -(m as i64)
    }
}

/// Division truncated toward zero on 128-bit values.
pub fn div_trunc_i128(a: i128, b: i128) -> (q: i128)
    requires
        1 <= b,
        -0x7fff_ffff_ffff_ffff_ffff_ffff_ffff_ffff <= a,
    ensures
        q == div_trunc(a as int, b as int),
{
    if a >= 0 {
        proof {
            lemma_div_pos_is_pos(a as int, b as int);
            lemma_div_nonincreasing(a as int, b as int);
        }
        ((a as u128) / (b as u128)) as i128
    } else {
        proof {
            lemma_div_pos_is_pos(-(a as int), b as int);
            lemma_div_nonincreasing(-(a as int), b as int);
        }
        let m = ((-a) as u128) / (b as u128);
        -(m as i128)
    }
}

} // verus!
