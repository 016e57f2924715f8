//! Oriented rectangles: center position, full size, and a rotation. The four
//! corners and the axis-aligned envelope derive from those three fields.

use vstd::prelude::*;
use crate::num::{div_t, div_trunc, RECT_LIMIT};
use crate::rotation::{rotate_pair, rotor_ok, Rotor};
use crate::vector::{bounded_by, Vector};

verus! {

/// An oriented rectangle: `position` is the center, `size` the full extents
/// before rotation, `angle` the rotation applied to the half-extent offsets.
#[derive(Debug, Clone, Copy, PartialEq, Eq, Structural)]
pub struct Rect {
    pub position: Vector,
    pub size: Vector,
    pub angle: Rotor,
}

/// The bounds under which every geometry function on rectangles is exact.
pub open spec fn rect_ok(r: Rect) -> bool {
    &&& bounded_by(r.position, RECT_LIMIT as int)
    &&& bounded_by(r.size, RECT_LIMIT as int)
    &&& rotor_ok(r.angle)
}

/// Signed half extents, rounded toward zero.
pub open spec fn half_x(r: Rect) -> int {
    div_t(r.size.0 as int, 2)
}

/// Signed half extents, rounded toward zero.
pub open spec fn half_y(r: Rect) -> int {
    div_t(r.size.1 as int, 2)
}

/// The half-extent offset of corner `i`, before rotation, in the fixed
/// winding order: left-top, right-top, right-bottom, left-bottom.
pub open spec fn corner_local(r: Rect, i: int) -> (int, int) {
    if i == 0 {
        (-half_x(r), half_y(r))
    } else if i == 1 {
        (half_x(r), half_y(r))
    } else if i == 2 {
        (half_x(r), -half_y(r))
    } else {
        (-half_x(r), -half_y(r))
    }
}

/// World coordinates of corner `i`: the rotated half-extent offset, translated
/// by the center.
pub open spec fn corner_spec(r: Rect, i: int) -> (int, int) {
    let local = corner_local(r, i);
    let rotated = rotate_pair(local.0, local.1, r.angle);
    (r.position.0 + rotated.0, r.position.1 + rotated.1)
}

/// Spec-level maximum of two integers.
pub open spec fn max_int(a: int, b: int) -> int {
    if a >= b {
        a
    } else {
        b
    }
}

/// Largest x over the four corners.
pub open spec fn env_max_x(r: Rect) -> int {
    max_int(
        max_int(corner_spec(r, 0).0, corner_spec(r, 1).0),
        max_int(corner_spec(r, 2).0, corner_spec(r, 3).0),
    )
}

/// Largest y over the four corners.
pub open spec fn env_max_y(r: Rect) -> int {
    max_int(
        max_int(corner_spec(r, 0).1, corner_spec(r, 1).1),
        max_int(corner_spec(r, 2).1, corner_spec(r, 3).1),
    )
}

/// Smallest x over the four corners.
pub open spec fn env_min_x(r: Rect) -> int {
    -max_int(
        max_int(-corner_spec(r, 0).0, -corner_spec(r, 1).0),
        max_int(-corner_spec(r, 2).0, -corner_spec(r, 3).0),
    )
}

/// Smallest y over the four corners.
pub open spec fn env_min_y(r: Rect) -> int {
    -max_int(
        max_int(-corner_spec(r, 0).1, -corner_spec(r, 1).1),
        max_int(-corner_spec(r, 2).1, -corner_spec(r, 3).1),
    )
}

/// The axis-aligned envelopes overlap strictly on both axes.
pub open spec fn env_overlap(a: Rect, b: Rect) -> bool {
    &&& env_max_x(a) > env_min_x(b)
    &&& env_max_x(b) > env_min_x(a)
    &&& env_max_y(a) > env_min_y(b)
    &&& env_max_y(b) > env_min_y(a)
}

impl Rect {
    /// An axis-aligned rectangle.
    pub fn new(position: Vector, size: Vector) -> (r: Rect)
        ensures
            r.position == position,
            r.size == size,
            rotor_is_zero_rect(r),
    {
        Rect { position, size, angle: Rotor::zero() }
    }

    /// A rectangle with an explicit rotation.
    pub fn new_with_angle(position: Vector, size: Vector, angle: Rotor) -> (r: Rect)
        ensures
            r.position == position,
            r.size == size,
            r.angle == angle,
    {
        let mut rect = Self::new(position, size);
        rect.set_angle(angle);
        rect
    }

    /// Replace the rotation.
    pub fn set_angle(&mut self, angle: Rotor)
        ensures
            final(self).position == old(self).position,
            final(self).size == old(self).size,
            final(self).angle == angle,
    {
        self.angle = angle;
    }

    /// Translate the center.
    pub fn add(self, rhs: Vector) -> (r: Rect)
        requires
            i64::MIN <= self.position.0 + rhs.0 <= i64::MAX,
            i64::MIN <= self.position.1 + rhs.1 <= i64::MAX,
        ensures
            r.position.0 == self.position.0 + rhs.0,
            r.position.1 == self.position.1 + rhs.1,
            r.size == self.size,
            r.angle == self.angle,
    {
        Rect { position: self.position.add(rhs), size: self.size, angle: self.angle }
    }

    /// The four rotated corners, in the fixed winding order.
    pub fn points(&self) -> (r: Vec<Vector>)
        requires
            rect_ok(*self),
        ensures
            r@.len() == 4,
            forall|i: int|
                0 <= i < 4 ==> ((#[trigger] r@[i]).0 as int, r@[i].1 as int) == corner_spec(
                    *self,
                    i,
                ),
            forall|i: int| 0 <= i < 4 ==> bounded_by(#[trigger] r@[i], 3 * RECT_LIMIT),
    {
        let hx: i64 = div_trunc(self.size.0, 2);
        let hy: i64 = div_trunc(self.size.1, 2);
        proof {
            crate::num::lemma_div_t_bound(self.size.0 as int, RECT_LIMIT as int, 2);
            crate::num::lemma_div_t_bound(self.size.1 as int, RECT_LIMIT as int, 2);
        }
        let lt = Vector(-hx, hy).rotate(self.angle);
        let rt = Vector(hx, hy).rotate(self.angle);
        let rb = Vector(hx, -hy).rotate(self.angle);
        let lb = Vector(-hx, -hy).rotate(self.angle);
        let p = self.position;
        let mut out: Vec<Vector> = Vec::new();
        out.push(p.add(lt));
        out.push(p.add(rt));
        out.push(p.add(rb));
        out.push(p.add(lb));
        out
    }

    /// The `(max, min)` corners of the axis-aligned envelope.
    pub fn maxmin(&self) -> (r: (Vector, Vector))
        requires
            rect_ok(*self),
        ensures
            r.0.0 == env_max_x(*self),
            r.0.1 == env_max_y(*self),
            r.1.0 == env_min_x(*self),
            r.1.1 == env_min_y(*self),
            bounded_by(r.0, 3 * RECT_LIMIT),
            bounded_by(r.1, 3 * RECT_LIMIT),
    {
        let points = self.points();
        let p0 = points[0];
        let p1 = points[1];
        let p2 = points[2];
        let p3 = points[3];
        let max = p0.max(p1).max(p2.max(p3));
        let min = p0.min(p1).min(p2.min(p3));
        (max, min)
    }

    /// Strict overlap of the axis-aligned envelopes: the fast path for two
    /// unrotated boxes, and the broad-phase test.
    pub fn envelope_collision(&self, other: &Rect) -> (r: bool)
        requires
            rect_ok(*self),
            rect_ok(*other),
        ensures
            r == env_overlap(*self, *other),
    {
        let (this_max, this_min) = self.maxmin();
        let (other_max, other_min) = other.maxmin();
        this_max.0 > other_min.0 && other_max.0 > this_min.0 && this_max.1 > other_min.1
            && other_max.1 > this_min.1
    }
}

/// The rectangle's rotor is the identity.
pub open spec fn rotor_is_zero_rect(r: Rect) -> bool {
    crate::rotation::rotor_is_zero(r.angle)
}

} // verus!
