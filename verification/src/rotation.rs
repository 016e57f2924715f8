//! Rotations as fixed-point rotors: a cosine/sine pair scaled by `ROT_ONE`.
//!
//! An angle is carried as the pair `(c, s)` standing for `(cos, sin)` times
//! `ROT_ONE`, so every rotation is exact integer arithmetic. The identity
//! rotor `(ROT_ONE, 0)` plays the role of "angle zero".

use vstd::prelude::*;
use crate::num::{div_t, div_trunc, RECT_LIMIT, ROT_ONE};
use crate::vector::{bounded_by, Vector};

verus! {

/// A rotation, as fixed-point cosine and sine scaled by `ROT_ONE`.
#[derive(Debug, Clone, Copy, PartialEq, Eq, Structural)]
pub struct Rotor {
    pub c: i64,
    pub s: i64,
}

/// Both rotor components lie within the fixed-point scale.
pub open spec fn rotor_ok(r: Rotor) -> bool {
    &&& -ROT_ONE <= r.c <= ROT_ONE
    &&& -ROT_ONE <= r.s <= ROT_ONE
}

/// The rotor that stands for angle zero.
pub open spec fn rotor_is_zero(r: Rotor) -> bool {
    r.c == ROT_ONE && r.s == 0
}

/// `(x, y)` rotated counterclockwise, with each component rounded toward zero.
pub open spec fn rotate_pair(x: int, y: int, r: Rotor) -> (int, int) {
    (div_t(x * r.c - y * r.s, ROT_ONE as int), div_t(x * r.s + y * r.c, ROT_ONE as int))
}

impl Rotor {
    /// The identity rotor, angle zero.
    pub fn zero() -> (r: Rotor)
        ensures
            rotor_is_zero(r),
            rotor_ok(r),
            r == (Rotor { c: ROT_ONE, s: 0i64 }),
    {
        Rotor { c: ROT_ONE, s: 0 }
    }

    /// Build a rotor from fixed-point cosine and sine.
    pub fn new(c: i64, s: i64) -> (r: Rotor)
        requires
            -ROT_ONE <= c <= ROT_ONE,
            -ROT_ONE <= s <= ROT_ONE,
        ensures
            r == (Rotor { c, s }),
            rotor_ok(r),
    {
        Rotor { c, s }
    }

    /// Whether this rotor is the identity (the "angle is zero" fast-path test).
    pub fn is_zero(&self) -> (r: bool)
        ensures
            r == rotor_is_zero(*self),
    {
        self.c == ROT_ONE && self.s == 0
    }
}

/// Truncating division by the rotor scale never grows the magnitude bound.
proof fn lemma_rot_div_bound(a: int, b: int)
    requires
        -(b * ROT_ONE) <= a <= b * ROT_ONE,
        b >= 0,
    ensures
        -b <= div_t(a, ROT_ONE as int) <= b,
{
    crate::num::lemma_div_t_bound(a, b, ROT_ONE as int);
}

/// A rotation at most doubles a componentwise bound.
pub proof fn lemma_rotate_pair_bound(x: int, y: int, rot: Rotor, b: int)
    requires
        rotor_ok(rot),
        b >= 0,
        -b <= x <= b,
        -b <= y <= b,
    ensures
        -2 * b <= rotate_pair(x, y, rot).0 <= 2 * b,
        -2 * b <= rotate_pair(x, y, rot).1 <= 2 * b,
{
    let o: int = ROT_ONE as int;
    assert(-(2 * b * o) <= x * rot.c - y * rot.s <= 2 * b * o && -(2 * b * o) <= x * rot.s + y
        * rot.c <= 2 * b * o) by (nonlinear_arith)
        requires
            -b <= x <= b,
            -b <= y <= b,
            -o <= rot.c <= o,
            -o <= rot.s <= o,
            b >= 0,
            o > 0,
    ;
    crate::num::lemma_div_t_bound(x * rot.c - y * rot.s, 2 * b, o);
    crate::num::lemma_div_t_bound(x * rot.s + y * rot.c, 2 * b, o);
}

impl Vector {
    /// Rotate counterclockwise by the rotor, rounding each component toward zero.
    pub fn rotate(self, rot: Rotor) -> (r: Vector)
        requires
            bounded_by(self, RECT_LIMIT as int),
            rotor_ok(rot),
        ensures
            (r.0 as int, r.1 as int) == rotate_pair(self.0 as int, self.1 as int, rot),
            bounded_by(r, 2 * RECT_LIMIT),
    {
        proof {
            lemma_rot_products(self, rot);
        }
        let xr: i64 = div_trunc(self.0 * rot.c - self.1 * rot.s, ROT_ONE);
        let yr: i64 = div_trunc(self.0 * rot.s + self.1 * rot.c, ROT_ONE);
        proof {
            lemma_rot_div_bound(self.0 * rot.c - self.1 * rot.s, 2 * RECT_LIMIT);
            lemma_rot_div_bound(self.0 * rot.s + self.1 * rot.c, 2 * RECT_LIMIT);
        }
        Vector(xr, yr)
    }
}

/// The intermediate products of a rotation stay well inside the machine type.
proof fn lemma_rot_products(v: Vector, rot: Rotor)
    requires
        bounded_by(v, RECT_LIMIT as int),
        rotor_ok(rot),
    ensures
        -2 * RECT_LIMIT * ROT_ONE <= v.0 * rot.c - v.1 * rot.s <= 2 * RECT_LIMIT * ROT_ONE,
        -2 * RECT_LIMIT * ROT_ONE <= v.0 * rot.s + v.1 * rot.c <= 2 * RECT_LIMIT * ROT_ONE,
        -RECT_LIMIT * ROT_ONE <= v.0 * rot.c <= RECT_LIMIT * ROT_ONE,
        -RECT_LIMIT * ROT_ONE <= v.0 * rot.s <= RECT_LIMIT * ROT_ONE,
        -RECT_LIMIT * ROT_ONE <= v.1 * rot.c <= RECT_LIMIT * ROT_ONE,
        -RECT_LIMIT * ROT_ONE <= v.1 * rot.s <= RECT_LIMIT * ROT_ONE,
{
    let b: int = RECT_LIMIT as int;
    let o: int = ROT_ONE as int;
    assert(-b * o <= v.0 * rot.c <= b * o && -b * o <= v.0 * rot.s <= b * o && -b * o <= v.1
        * rot.c <= b * o && -b * o <= v.1 * rot.s <= b * o) by (nonlinear_arith)
        requires
            -b <= v.0 <= b,
            -b <= v.1 <= b,
            -o <= rot.c <= o,
            -o <= rot.s <= o,
            b >= 0,
            o >= 0,
    ;
}

} // verus!
