//! Shared integer arithmetic: world bounds, truncating division, square roots.
//!
//! Coordinates are fine-grained integer units. Every public geometry function
//! works on values inside the bounds below, which keeps all intermediate
//! products inside the machine types.

use vstd::prelude::*;

verus! {

/// World positions stay within this bound after every integration step.
pub const POS_LIMIT: i64 = 1_000_000_000_000;

/// Local-space box positions and sizes stay within this bound.
pub const SIZE_LIMIT: i64 = 1_000_000_000;

/// Bound on the coordinates of any rectangle the geometry functions accept.
pub const RECT_LIMIT: i64 = 8_000_000_000_000;

/// Fixed-point scale of a rotation's cosine and sine.
pub const ROT_ONE: i64 = 1000;

/// Speeds are given in units per second and stay within this bound.
pub const SPEED_LIMIT: i64 = 1_000_000_000;

/// A single tick covers at most this many milliseconds.
pub const DELTA_LIMIT: u64 = 1_000_000;

/// Truncating (round-toward-zero) division, the semantics of Rust's `/`.
pub open spec fn div_t(a: int, b: int) -> int {
    if a >= 0 {
        a / b
    } else {
        -((-a) / b)
    }
}

/// The value `v` clamped to the world bound.
pub open spec fn clamp_pos(v: int) -> int {
    if v > POS_LIMIT {
        POS_LIMIT as int
    } else if v < -POS_LIMIT {
        -POS_LIMIT as int
    } else {
        v
    }
}

/// Spec-level minimum of two integers.
pub open spec fn min_int(a: int, b: int) -> int {
    if a <= b {
        a
    } else {
        b
    }
}

/// Truncating division by `d` keeps a value within `[-b, b]` when the
/// dividend lies within `[-b * d, b * d]`.
pub proof fn lemma_div_t_bound(a: int, b: int, d: int)
    requires
        d > 0,
        b >= 0,
        -(b * d) <= a <= b * d,
    ensures
        -b <= div_t(a, d) <= b,
{
    vstd::arithmetic::div_mod::lemma_div_multiples_vanish(b, d);
    assert((d * b) / d == b);
    assert(d * b == b * d) by (nonlinear_arith);
    if a >= 0 {
        vstd::arithmetic::div_mod::lemma_div_pos_is_pos(a, d);
        vstd::arithmetic::div_mod::lemma_div_is_ordered(a, b * d, d);
    } else {
        vstd::arithmetic::div_mod::lemma_div_pos_is_pos(-a, d);
        vstd::arithmetic::div_mod::lemma_div_is_ordered(-a, b * d, d);
    }
}

/// Scaling by `d` and dividing by `d` gives the value back exactly.
pub proof fn lemma_div_t_exact(a: int, d: int)
    requires
        d > 0,
    ensures
        div_t(a * d, d) == a,
{
    if a >= 0 {
        vstd::arithmetic::div_mod::lemma_div_by_multiple(a, d);
    } else {
        vstd::arithmetic::div_mod::lemma_div_by_multiple(-a, d);
        assert(-(a * d) == (-a) * d) by (nonlinear_arith);
        assert(a * d < 0) by (nonlinear_arith)
            requires
                a < 0,
                d > 0,
        ;
    }
}

/// A partial scale `a * u / t` with `0 <= u <= t` stays between `0` and `a`.
pub proof fn lemma_scale_sign_range(a: int, u: int, t: int)
    requires
        t > 0,
        0 <= u <= t,
    ensures
        a >= 0 ==> 0 <= div_t(a * u, t) <= a,
        a < 0 ==> a <= div_t(a * u, t) <= 0,
{
    if a >= 0 {
        assert(0 <= a * u <= a * t && a * t == t * a) by (nonlinear_arith)
            requires
                a >= 0,
                0 <= u <= t,
        ;
        vstd::arithmetic::div_mod::lemma_div_pos_is_pos(a * u, t);
        vstd::arithmetic::div_mod::lemma_div_is_ordered(a * u, a * t, t);
        vstd::arithmetic::div_mod::lemma_div_multiples_vanish(a, t);
    } else {
        assert(0 <= -(a * u) <= (-a) * t && (-a) * t == t * (-a)) by (nonlinear_arith)
            requires
                a < 0,
                0 <= u <= t,
        ;
        vstd::arithmetic::div_mod::lemma_div_pos_is_pos(-(a * u), t);
        vstd::arithmetic::div_mod::lemma_div_is_ordered(-(a * u), (-a) * t, t);
        vstd::arithmetic::div_mod::lemma_div_multiples_vanish(-a, t);
    }
}

/// Flooring division of `a` by a positive divisor, the cell arithmetic of
/// the spatial grids; agrees with the mathematical (Euclidean) quotient.
pub fn div_floor(a: i64, b: i64) -> (r: i64)
    requires
        b > 0,
        a > i64::MIN + b,
    ensures
        r == a as int / b as int,
{
    if a >= 0 {
        let q = ((a as u64) / (b as u64)) as i64;
        proof {
            vstd::arithmetic::div_mod::lemma_fundamental_div_mod(a as int, b as int);
        }
        q
    } else {
        let m: u64 = ((-a) as u64 + (b as u64) - 1) / (b as u64);
        let q = -(m as i64);
        proof {
            let ai = a as int;
            let bi = b as int;
            let mi = m as int;
            vstd::arithmetic::div_mod::lemma_fundamental_div_mod((-ai + bi - 1) as int, bi);
            assert(bi * mi <= -ai + bi - 1 < bi * (mi + 1)) by (nonlinear_arith)
                requires
                    mi == (-ai + bi - 1) / bi,
                    bi > 0,
                    (-ai + bi - 1) == bi * mi + ((-ai + bi - 1) % bi),
                    0 <= ((-ai + bi - 1) % bi) < bi,
            ;
            vstd::arithmetic::div_mod::lemma_fundamental_div_mod(ai, bi);
            assert(-mi == ai / bi) by (nonlinear_arith)
                requires
                    bi * mi <= -ai + bi - 1 < bi * (mi + 1),
                    ai == bi * (ai / bi) + (ai % bi),
                    0 <= (ai % bi) < bi,
                    bi > 0,
            ;
        }
        q
    }
}

/// The flooring quotient lies between the dividend and zero.
pub proof fn lemma_div_floor_bounds(a: int, b: int)
    requires
        b >= 1,
    ensures
        a >= 0 ==> 0 <= a / b <= a,
        a < 0 ==> a <= a / b <= 0,
{
    vstd::arithmetic::div_mod::lemma_fundamental_div_mod(a, b);
    if a >= 0 {
        vstd::arithmetic::div_mod::lemma_div_pos_is_pos(a, b);
        vstd::arithmetic::div_mod::lemma_div_nonincreasing(a, b);
    } else {
        assert(a <= a / b <= 0) by (nonlinear_arith)
            requires
                b >= 1,
                a < 0,
                a == b * (a / b) + (a % b),
                0 <= (a % b) < b,
        ;
    }
}

/// Truncating division of `a` by a positive divisor.
pub fn div_trunc(a: i64, b: i64) -> (r: i64)
    requires
        b > 0,
        a > i64::MIN,
    ensures
        r == div_t(a as int, b as int),
{
    if a >= 0 {
        ((a as u64) / (b as u64)) as i64
    } else {
        let m: u64 = ((-a) as u64) / (b as u64);
        -(m as i64)
    }
}

/// Truncating division on the wide type, for intermediate products.
pub fn div_trunc_128(a: i128, b: i128) -> (r: i128)
    requires
        b > 0,
        a > i128::MIN,
    ensures
        r == div_t(a as int, b as int),
{
    if a >= 0 {
        ((a as u128) / (b as u128)) as i128
    } else {
        let m: u128 = ((-a) as u128) / (b as u128);
        -(m as i128)
    }
}

/// Clamp a wide intermediate back into the world bound.
pub fn clamp_coord(v: i128) -> (r: i64)
    ensures
        r == clamp_pos(v as int),
{
    if v > POS_LIMIT as i128 {
        POS_LIMIT
    } else if v < -(POS_LIMIT as i128) {
        -POS_LIMIT
    } else {
        v as i64
    }
}

/// Floor of the square root, defined by counting up; `lemma_sqrt_floor`
/// establishes the defining inequalities.
pub open spec fn sqrt_floor(n: int) -> int
    decreases n,
{
    if n <= 0 {
        0
    } else {
        let r = sqrt_floor(n - 1);
        if (r + 1) * (r + 1) <= n {
            r + 1
        } else {
            r
        }
    }
}

/// `sqrt_floor(n)` is the unique `r >= 0` with `r * r <= n < (r + 1) * (r + 1)`.
pub proof fn lemma_sqrt_floor(n: int)
    requires
        n >= 0,
    ensures
        0 <= sqrt_floor(n),
        sqrt_floor(n) * sqrt_floor(n) <= n,
        n < (sqrt_floor(n) + 1) * (sqrt_floor(n) + 1),
    decreases n,
{
    if n <= 0 {
        assert(sqrt_floor(n) == 0);
    } else {
        lemma_sqrt_floor(n - 1);
        let r = sqrt_floor(n - 1);
        if (r + 1) * (r + 1) <= n {
            assert(sqrt_floor(n) == r + 1);
            assert(n < ((r + 1) + 1) * ((r + 1) + 1)) by (nonlinear_arith)
                requires
                    n - 1 < (r + 1) * (r + 1),
                    (r + 1) * (r + 1) <= n,
                    r >= 0,
            ;
        } else {
            assert(sqrt_floor(n) == r);
        }
    }
}

/// Binary search for the floor of the square root of `n`.
pub fn isqrt(n: u128) -> (r: u128)
    ensures
        r == sqrt_floor(n as int),
        r * r <= n < (r + 1) * (r + 1),
{
    proof {
        lemma_sqrt_floor(n as int);
    }
    let mut lo: u128 = 0;
    let mut hi: u128 = 0x1_0000_0000_0000_0000;
    assert(hi * hi > n) by (nonlinear_arith)
        requires
            hi == 0x1_0000_0000_0000_0000,
            n <= u128::MAX,
    ;
    while lo + 1 < hi
        invariant
            lo < hi,
            hi <= 0x1_0000_0000_0000_0000,
            lo * lo <= n,
            hi * hi > n,
        decreases hi - lo,
    {
        let mid: u128 = lo + (hi - lo) / 2;
        assert(lo < mid < hi);
        assert(mid * mid <= u128::MAX) by (nonlinear_arith)
            requires
                mid < 0x1_0000_0000_0000_0000,
        ;
        if mid * mid <= n {
            lo = mid;
        } else {
            hi = mid;
        }
    }
    proof {
        lemma_sqrt_floor(n as int);
        let s = sqrt_floor(n as int);
        assert(lo == s) by (nonlinear_arith)
            requires
                lo * lo <= n,
                (lo + 1) * (lo + 1) > n,
                s * s <= n,
                (s + 1) * (s + 1) > n,
                lo >= 0,
                s >= 0,
        ;
    }
    lo
}

} // verus!
