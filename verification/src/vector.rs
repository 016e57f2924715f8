//! The 2D vector type: exact integer coordinates, componentwise arithmetic,
//! dot and cross products, and scaling to a requested length.

use vstd::prelude::*;
use crate::num::{div_t, div_trunc_128, isqrt, sqrt_floor, POS_LIMIT, RECT_LIMIT};

verus! {

/// A 2D vector in fine-grained integer units.
#[derive(Debug, Clone, Copy, PartialEq, Eq, Structural)]
pub struct Vector(pub i64, pub i64);

/// Both components of `v` lie within `[-b, b]`.
pub open spec fn bounded_by(v: Vector, b: int) -> bool {
    &&& -b <= v.0 <= b
    &&& -b <= v.1 <= b
}

/// Squared length of `v`.
pub open spec fn mag_spec(v: Vector) -> int {
    v.0 * v.0 + v.1 * v.1
}

/// `(x, y)` scaled to length `len` (floor arithmetic); a zero pair stays zero.
pub open spec fn by_length_pair(x: int, y: int, len: int) -> (int, int) {
    let d = sqrt_floor(x * x + y * y);
    if d == 0 {
        (0, 0)
    } else {
        (div_t(x * len, d), div_t(y * len, d))
    }
}

/// `v` scaled to length `len` (floor arithmetic); the zero vector stays zero.
pub open spec fn by_length_spec(v: Vector, len: int) -> (int, int) {
    by_length_pair(v.0 as int, v.1 as int, len)
}

/// A component's square never exceeds the squared length.
proof fn lemma_component_square_le_mag(v: Vector)
    ensures
        v.0 * v.0 <= mag_spec(v),
        v.1 * v.1 <= mag_spec(v),
{
    assert(v.0 * v.0 >= 0 && v.1 * v.1 >= 0) by (nonlinear_arith);
}

/// If `a * a <= m` then `|a| <= sqrt_floor(m)`.
proof fn lemma_abs_le_sqrt(a: int, m: int)
    requires
        a * a <= m,
    ensures
        -(sqrt_floor(m) as int) <= a <= sqrt_floor(m) as int,
{
    assert(m >= 0) by (nonlinear_arith)
        requires
            a * a <= m,
    ;
    crate::num::lemma_sqrt_floor(m);
    let d = sqrt_floor(m) as int;
    assert(-d <= a <= d) by (nonlinear_arith)
        requires
            a * a <= m,
            m < (d + 1) * (d + 1),
            d >= 0,
    ;
}

/// Scaling `a` by `l / d` keeps it within `[-l, l]` when `|a| <= d`.
proof fn lemma_scale_bound(a: int, l: int, d: int)
    requires
        d > 0,
        l >= 0,
        -d <= a <= d,
    ensures
        -l <= div_t(a * l, d) <= l,
{
    vstd::arithmetic::div_mod::lemma_div_multiples_vanish(l, d);
    assert((d * l) / d == l);
    if a >= 0 {
        assert(0 <= a * l <= d * l) by (nonlinear_arith)
            requires
                l >= 0,
                d > 0,
                0 <= a <= d,
        ;
        vstd::arithmetic::div_mod::lemma_div_pos_is_pos(a * l, d);
        vstd::arithmetic::div_mod::lemma_div_is_ordered(a * l, d * l, d);
    } else {
        assert(0 <= -(a * l) <= d * l) by (nonlinear_arith)
            requires
                l >= 0,
                d > 0,
                -d <= a < 0,
        ;
        vstd::arithmetic::div_mod::lemma_div_pos_is_pos(-(a * l), d);
        vstd::arithmetic::div_mod::lemma_div_is_ordered(-(a * l), d * l, d);
    }
}

impl Vector {
    /// Build a vector from its components.
    pub fn new(x: i64, y: i64) -> (r: Vector)
        ensures
            r == (Vector(x, y)),
    {
        Vector(x, y)
    }

    /// The zero vector.
    pub fn origin() -> (r: Vector)
        ensures
            r == (Vector(0i64, 0i64)),
    {
        Vector(0, 0)
    }

    /// Split the vector into its components.
    pub fn unpack(self) -> (r: (i64, i64))
        ensures
            r.0 == self.0,
            r.1 == self.1,
    {
        (self.0, self.1)
    }

    /// Componentwise sum.
    pub fn add(self, rhs: Vector) -> (r: Vector)
        requires
            i64::MIN <= self.0 + rhs.0 <= i64::MAX,
            i64::MIN <= self.1 + rhs.1 <= i64::MAX,
        ensures
            r.0 == self.0 + rhs.0,
            r.1 == self.1 + rhs.1,
    {
        Vector(self.0 + rhs.0, self.1 + rhs.1)
    }

    /// Componentwise difference.
    pub fn sub(self, rhs: Vector) -> (r: Vector)
        requires
            i64::MIN <= self.0 - rhs.0 <= i64::MAX,
            i64::MIN <= self.1 - rhs.1 <= i64::MAX,
        ensures
            r.0 == self.0 - rhs.0,
            r.1 == self.1 - rhs.1,
    {
        Vector(self.0 - rhs.0, self.1 - rhs.1)
    }

    /// Componentwise negation.
    pub fn neg(self) -> (r: Vector)
        requires
            self.0 > i64::MIN,
            self.1 > i64::MIN,
        ensures
            r.0 == -self.0,
            r.1 == -self.1,
    {
        Vector(-self.0, -self.1)
    }

    /// The vector from `self` to `target`.
    pub fn to(self, target: Vector) -> (r: Vector)
        requires
            i64::MIN <= target.0 - self.0 <= i64::MAX,
            i64::MIN <= target.1 - self.1 <= i64::MAX,
        ensures
            r.0 == target.0 - self.0,
            r.1 == target.1 - self.1,
    {
        target.sub(self)
    }

    /// Squared length.
    pub fn distance_magnitude(self) -> (r: u128)
        ensures
            r == mag_spec(self),
    {
        let ax: u64 = if self.0 >= 0 {
            self.0 as u64
        } else {
            (-(self.0 as i128)) as u64
        };
        let ay: u64 = if self.1 >= 0 {
            self.1 as u64
        } else {
            (-(self.1 as i128)) as u64
        };
        proof {
            assert((ax as int) * (ax as int) == self.0 * self.0) by (nonlinear_arith)
                requires
                    ax == if self.0 >= 0 { self.0 as int } else { -(self.0 as int) },
            ;
            assert((ay as int) * (ay as int) == self.1 * self.1) by (nonlinear_arith)
                requires
                    ay == if self.1 >= 0 { self.1 as int } else { -(self.1 as int) },
            ;
            assert((ax as int) * (ax as int) + (ay as int) * (ay as int) <= u128::MAX) by (nonlinear_arith)
                requires
                    ax <= 0x8000_0000_0000_0000,
                    ay <= 0x8000_0000_0000_0000,
            ;
        }
        (ax as u128) * (ax as u128) + (ay as u128) * (ay as u128)
    }

    /// Length, rounded down.
    pub fn distance(self) -> (r: u64)
        ensures
            r == sqrt_floor(mag_spec(self)),
    {
        let m = self.distance_magnitude();
        let d = isqrt(m);
        proof {
            assert(d <= u64::MAX) by (nonlinear_arith)
                requires
                    d * d <= u128::MAX,
                    d >= 0,
            ;
        }
        d as u64
    }

    /// Scale to length `length`, keeping the direction; a zero vector stays zero.
    pub fn by_length(self, length: i64) -> (r: Vector)
        requires
            bounded_by(self, RECT_LIMIT as int),
            0 <= length <= 2 * POS_LIMIT,
        ensures
            (r.0 as int, r.1 as int) == by_length_spec(self, length as int),
            bounded_by(r, length as int),
    {
        let m = self.distance_magnitude();
        let d = isqrt(m);
        if d == 0 {
            Vector(0, 0)
        } else {
            proof {
                assert(mag_spec(self) <= 128_000_000_000_000_000_000_000_000) by (nonlinear_arith)
                    requires
                        bounded_by(self, RECT_LIMIT as int),
                        RECT_LIMIT == 8_000_000_000_000i64,
                        mag_spec(self) == self.0 * self.0 + self.1 * self.1,
                ;
                assert(d <= 12_000_000_000_000) by (nonlinear_arith)
                    requires
                        d * d <= 128_000_000_000_000_000_000_000_000,
                        d >= 0,
                ;
                assert(-(i128::MAX as int) < self.0 * length < i128::MAX as int
                    && -(i128::MAX as int) < self.1 * length < i128::MAX as int)
                    by (nonlinear_arith)
                    requires
                        bounded_by(self, RECT_LIMIT as int),
                        RECT_LIMIT == 8_000_000_000_000i64,
                        0 <= length <= 2 * POS_LIMIT,
                        POS_LIMIT == 1_000_000_000_000i64,
                ;
                lemma_component_square_le_mag(self);
                lemma_abs_le_sqrt(self.0 as int, mag_spec(self));
                lemma_abs_le_sqrt(self.1 as int, mag_spec(self));
                lemma_scale_bound(self.0 as int, length as int, d as int);
                lemma_scale_bound(self.1 as int, length as int, d as int);
            }
            let px: i128 = (self.0 as i128) * (length as i128);
            let py: i128 = (self.1 as i128) * (length as i128);
            let qx: i128 = div_trunc_128(px, d as i128);
            let qy: i128 = div_trunc_128(py, d as i128);
            Vector(qx as i64, qy as i64)
        }
    }

    /// Left normal: `self` rotated a quarter turn counterclockwise.
    pub fn normal(self) -> (r: Vector)
        requires
            self.1 > i64::MIN,
        ensures
            r.0 == -self.1,
            r.1 == self.0,
    {
        Vector(-self.1, self.0)
    }

    /// Right normal: `self` rotated a quarter turn clockwise.
    pub fn right_normal(self) -> (r: Vector)
        requires
            self.0 > i64::MIN,
        ensures
            r.0 == self.1,
            r.1 == -self.0,
    {
        Vector(self.1, -self.0)
    }

    /// Componentwise absolute value.
    pub fn abs(self) -> (r: Vector)
        requires
            self.0 > i64::MIN,
            self.1 > i64::MIN,
        ensures
            r.0 == if self.0 >= 0 { self.0 as int } else { -(self.0 as int) },
            r.1 == if self.1 >= 0 { self.1 as int } else { -(self.1 as int) },
    {
        Vector(
            if self.0 >= 0 { self.0 } else { -self.0 },
            if self.1 >= 0 { self.1 } else { -self.1 },
        )
    }

    /// Dot product, on the wide type so that it is always exact.
    pub fn dot(self, target: Vector) -> (r: i128)
        requires
            bounded_by(self, 3_000_000_000_000_000_000),
            bounded_by(target, 3_000_000_000_000_000_000),
        ensures
            r == self.0 * target.0 + self.1 * target.1,
    {
        proof {
            lemma_wide_products_fit(self, target);
        }
        (self.0 as i128) * (target.0 as i128) + (self.1 as i128) * (target.1 as i128)
    }

    /// Cross product (z-component), on the wide type so that it is always exact.
    pub fn cross(self, target: Vector) -> (r: i128)
        requires
            bounded_by(self, 3_000_000_000_000_000_000),
            bounded_by(target, 3_000_000_000_000_000_000),
        ensures
            r == self.0 * target.1 - self.1 * target.0,
    {
        proof {
            lemma_wide_products_fit(self, target);
        }
        (self.0 as i128) * (target.1 as i128) - (self.1 as i128) * (target.0 as i128)
    }

    /// Componentwise maximum.
    pub fn max(self, target: Vector) -> (r: Vector)
        ensures
            r.0 == if self.0 >= target.0 { self.0 } else { target.0 },
            r.1 == if self.1 >= target.1 { self.1 } else { target.1 },
    {
        Vector(
            if self.0 >= target.0 { self.0 } else { target.0 },
            if self.1 >= target.1 { self.1 } else { target.1 },
        )
    }

    /// Componentwise minimum.
    pub fn min(self, target: Vector) -> (r: Vector)
        ensures
            r.0 == if self.0 <= target.0 { self.0 } else { target.0 },
            r.1 == if self.1 <= target.1 { self.1 } else { target.1 },
    {
        Vector(
            if self.0 <= target.0 { self.0 } else { target.0 },
            if self.1 <= target.1 { self.1 } else { target.1 },
        )
    }
}

/// Products of components bounded by `3e18` fit comfortably in the wide type.
proof fn lemma_wide_products_fit(a: Vector, b: Vector)
    requires
        bounded_by(a, 3_000_000_000_000_000_000),
        bounded_by(b, 3_000_000_000_000_000_000),
    ensures
        -(i128::MAX as int) <= a.0 * b.0 + a.1 * b.1 <= i128::MAX,
        -(i128::MAX as int) <= a.0 * b.1 - a.1 * b.0 <= i128::MAX,
        -9_000_000_000_000_000_000_000_000_000_000_000_000 <= a.0 * b.0
            <= 9_000_000_000_000_000_000_000_000_000_000_000_000,
        -9_000_000_000_000_000_000_000_000_000_000_000_000 <= a.0 * b.1
            <= 9_000_000_000_000_000_000_000_000_000_000_000_000,
        -9_000_000_000_000_000_000_000_000_000_000_000_000 <= a.1 * b.0
            <= 9_000_000_000_000_000_000_000_000_000_000_000_000,
        -9_000_000_000_000_000_000_000_000_000_000_000_000 <= a.1 * b.1
            <= 9_000_000_000_000_000_000_000_000_000_000_000_000,
{
    let m: int = 3_000_000_000_000_000_000;
    let p: int = 9_000_000_000_000_000_000_000_000_000_000_000_000;
    assert(-p <= a.0 * b.0 <= p && -p <= a.0 * b.1 <= p && -p <= a.1 * b.0 <= p && -p <= a.1
        * b.1 <= p) by (nonlinear_arith)
        requires
            -m <= a.0 <= m,
            -m <= a.1 <= m,
            -m <= b.0 <= m,
            -m <= b.1 <= m,
            m == 3_000_000_000_000_000_000,
            p == 9_000_000_000_000_000_000_000_000_000_000_000_000,
    ;
}

} // verus!
