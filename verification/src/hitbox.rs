//! Narrow-phase overlap between oriented rectangles: a separating-axis test
//! over the two edge normals of each box, with an axis-aligned fast path when
//! neither box is rotated.

use vstd::prelude::*;
use crate::num::RECT_LIMIT;
use crate::rect::{
    corner_spec, env_max_x, env_max_y, env_min_x, env_min_y, env_overlap, half_x, half_y, max_int,
    rect_ok, Rect,
};
use crate::rotation::rotor_is_zero;
use crate::vector::{bounded_by, Vector};

verus! {

/// Projection of a point onto an axis: the raw dot product.
pub open spec fn proj(axis: (int, int), p: (int, int)) -> int {
    axis.0 * p.0 + axis.1 * p.1
}

/// Edge normal `i` of the rectangle (left normals of the first two edges of
/// the corner chain); the two normals span the box's separating axes.
pub open spec fn axis_spec(r: Rect, i: int) -> (int, int) {
    let c0 = corner_spec(r, 0);
    let c1 = corner_spec(r, 1);
    let c2 = corner_spec(r, 2);
    if i == 0 {
        (-(c1.1 - c0.1), c1.0 - c0.0)
    } else {
        (-(c2.1 - c1.1), c2.0 - c1.0)
    }
}

/// Largest projection of the rectangle's corners onto the axis.
pub open spec fn proj_max(axis: (int, int), r: Rect) -> int {
    max_int(
        max_int(proj(axis, corner_spec(r, 0)), proj(axis, corner_spec(r, 1))),
        max_int(proj(axis, corner_spec(r, 2)), proj(axis, corner_spec(r, 3))),
    )
}

/// Smallest projection of the rectangle's corners onto the axis.
pub open spec fn proj_min(axis: (int, int), r: Rect) -> int {
    -max_int(
        max_int(-proj(axis, corner_spec(r, 0)), -proj(axis, corner_spec(r, 1))),
        max_int(-proj(axis, corner_spec(r, 2)), -proj(axis, corner_spec(r, 3))),
    )
}

/// The two boxes' projection intervals on this axis do not meet.
pub open spec fn separated_on(axis: (int, int), a: Rect, b: Rect) -> bool {
    proj_max(axis, a) < proj_min(axis, b) || proj_min(axis, a) > proj_max(axis, b)
}

/// Separating-axis overlap: no axis among the two normals of each box
/// separates the projection intervals.
pub open spec fn sat_overlap(a: Rect, b: Rect) -> bool {
    &&& !separated_on(axis_spec(a, 0), a, b)
    &&& !separated_on(axis_spec(a, 1), a, b)
    &&& !separated_on(axis_spec(b, 0), a, b)
    &&& !separated_on(axis_spec(b, 1), a, b)
}

/// The dual-mode overlap test: the envelope fast path when neither box is
/// rotated, the separating-axis test otherwise.
pub open spec fn collision_spec(a: Rect, b: Rect) -> bool {
    if rotor_is_zero(a.angle) && rotor_is_zero(b.angle) {
        env_overlap(a, b)
    } else {
        sat_overlap(a, b)
    }
}

impl Rect {
    /// The two edge normals that span this box's separating axes.
    pub fn normal_vector(&self) -> (r: Vec<Vector>)
        requires
            rect_ok(*self),
        ensures
            r@.len() == 2,
            forall|i: int|
                0 <= i < 2 ==> ((#[trigger] r@[i]).0 as int, r@[i].1 as int) == axis_spec(
                    *self,
                    i,
                ),
            forall|i: int| 0 <= i < 2 ==> bounded_by(#[trigger] r@[i], 6 * RECT_LIMIT),
    {
        let points = self.points();
        let lt = points[0];
        let rt = points[1];
        let rb = points[2];
        let n0 = lt.to(rt).normal();
        let n1 = rt.to(rb).normal();
        let mut out: Vec<Vector> = Vec::new();
        out.push(n0);
        out.push(n1);
        out
    }

    /// The `(min, max)` interval of this box's corners projected on the axis.
    pub fn project_interval(&self, axis: Vector) -> (r: (i128, i128))
        requires
            rect_ok(*self),
            bounded_by(axis, 6 * RECT_LIMIT),
        ensures
            r.0 == proj_min((axis.0 as int, axis.1 as int), *self),
            r.1 == proj_max((axis.0 as int, axis.1 as int), *self),
    {
        let points = self.points();
        let d0 = axis.dot(points[0]);
        let d1 = axis.dot(points[1]);
        let d2 = axis.dot(points[2]);
        let d3 = axis.dot(points[3]);
        let hi01 = if d0 >= d1 { d0 } else { d1 };
        let hi23 = if d2 >= d3 { d2 } else { d3 };
        let lo01 = if d0 <= d1 { d0 } else { d1 };
        let lo23 = if d2 <= d3 { d2 } else { d3 };
        let hi = if hi01 >= hi23 { hi01 } else { hi23 };
        let lo = if lo01 <= lo23 { lo01 } else { lo23 };
        (lo, hi)
    }

    /// Whether the axis separates this box from `other`.
    fn axis_separates(&self, other: &Rect, axis: Vector) -> (r: bool)
        requires
            rect_ok(*self),
            rect_ok(*other),
            bounded_by(axis, 6 * RECT_LIMIT),
        ensures
            r == separated_on((axis.0 as int, axis.1 as int), *self, *other),
    {
        let (lo, hi) = self.project_interval(axis);
        let (other_lo, other_hi) = other.project_interval(axis);
        hi < other_lo || lo > other_hi
    }

    /// The general separating-axis overlap test, over both boxes' normals.
    pub fn sat_collision(&self, other: &Rect) -> (r: bool)
        requires
            rect_ok(*self),
            rect_ok(*other),
        ensures
            r == sat_overlap(*self, *other),
    {
        let self_axes = self.normal_vector();
        let other_axes = other.normal_vector();
        if self.axis_separates(other, self_axes[0]) {
            return false;
        }
        if self.axis_separates(other, self_axes[1]) {
            return false;
        }
        if self.axis_separates(other, other_axes[0]) {
            return false;
        }
        if self.axis_separates(other, other_axes[1]) {
            return false;
        }
        true
    }

    /// Dual-mode overlap: the axis-aligned envelope fast path when neither box
    /// is rotated, the separating-axis test otherwise.
    pub fn collision(&self, other: &Rect) -> (r: bool)
        requires
            rect_ok(*self),
            rect_ok(*other),
        ensures
            r == collision_spec(*self, *other),
    {
        if self.angle.is_zero() && other.angle.is_zero() {
            return self.envelope_collision(other);
        }
        self.sat_collision(other)
    }
}

/// The corners and envelope of an unrotated rectangle, written out.
pub proof fn lemma_zero_rect_corners(r: Rect)
    requires
        rect_ok(r),
        rotor_is_zero(r.angle),
    ensures
        corner_spec(r, 0) == (r.position.0 - half_x(r), r.position.1 + half_y(r)),
        corner_spec(r, 1) == (r.position.0 + half_x(r), r.position.1 + half_y(r)),
        corner_spec(r, 2) == (r.position.0 + half_x(r), r.position.1 - half_y(r)),
        corner_spec(r, 3) == (r.position.0 - half_x(r), r.position.1 - half_y(r)),
        env_max_x(r) == max_int(r.position.0 + half_x(r), r.position.0 - half_x(r)),
        env_min_x(r) == -max_int(
            -(r.position.0 + half_x(r)),
            -(r.position.0 - half_x(r)),
        ),
        env_max_y(r) == max_int(r.position.1 + half_y(r), r.position.1 - half_y(r)),
        env_min_y(r) == -max_int(
            -(r.position.1 + half_y(r)),
            -(r.position.1 - half_y(r)),
        ),
{
    let o = crate::num::ROT_ONE as int;
    let hx = half_x(r);
    let hy = half_y(r);
    assert(crate::num::div_t(-hx * r.angle.c - hy * r.angle.s, o) == -hx) by {
        crate::num::lemma_div_t_exact(-hx, o);
        assert(-hx * r.angle.c - hy * r.angle.s == -hx * o) by (nonlinear_arith)
            requires
                r.angle.c == o,
                r.angle.s == 0,
        ;
    }
    assert(crate::num::div_t(hx * r.angle.c - hy * r.angle.s, o) == hx) by {
        crate::num::lemma_div_t_exact(hx, o);
        assert(hx * r.angle.c - hy * r.angle.s == hx * o) by (nonlinear_arith)
            requires
                r.angle.c == o,
                r.angle.s == 0,
        ;
    }
    assert(crate::num::div_t(hx * r.angle.c - -hy * r.angle.s, o) == hx) by {
        crate::num::lemma_div_t_exact(hx, o);
        assert(hx * r.angle.c - -hy * r.angle.s == hx * o) by (nonlinear_arith)
            requires
                r.angle.c == o,
                r.angle.s == 0,
        ;
    }
    assert(crate::num::div_t(-hx * r.angle.c - -hy * r.angle.s, o) == -hx) by {
        crate::num::lemma_div_t_exact(-hx, o);
        assert(-hx * r.angle.c - -hy * r.angle.s == -hx * o) by (nonlinear_arith)
            requires
                r.angle.c == o,
                r.angle.s == 0,
        ;
    }
    assert(crate::num::div_t(-hx * r.angle.s + hy * r.angle.c, o) == hy) by {
        crate::num::lemma_div_t_exact(hy, o);
        assert(-hx * r.angle.s + hy * r.angle.c == hy * o) by (nonlinear_arith)
            requires
                r.angle.c == o,
                r.angle.s == 0,
        ;
    }
    assert(crate::num::div_t(hx * r.angle.s + hy * r.angle.c, o) == hy) by {
        crate::num::lemma_div_t_exact(hy, o);
        assert(hx * r.angle.s + hy * r.angle.c == hy * o) by (nonlinear_arith)
            requires
                r.angle.c == o,
                r.angle.s == 0,
        ;
    }
    assert(crate::num::div_t(hx * r.angle.s + -hy * r.angle.c, o) == -hy) by {
        crate::num::lemma_div_t_exact(-hy, o);
        assert(hx * r.angle.s + -hy * r.angle.c == -hy * o) by (nonlinear_arith)
            requires
                r.angle.c == o,
                r.angle.s == 0,
        ;
    }
    assert(crate::num::div_t(-hx * r.angle.s + -hy * r.angle.c, o) == -hy) by {
        crate::num::lemma_div_t_exact(-hy, o);
        assert(-hx * r.angle.s + -hy * r.angle.c == -hy * o) by (nonlinear_arith)
            requires
                r.angle.c == o,
                r.angle.s == 0,
        ;
    }
}

/// On a vertical axis `(0, k)`, the corner projections of an unrotated box
/// are its y extremes scaled by `k`.
proof fn lemma_projs_vertical(ax: (int, int), r: Rect, k: int, c: int, h: int)
    requires
        rect_ok(r),
        rotor_is_zero(r.angle),
        ax == (0int, k),
        c == r.position.1,
        h == half_y(r),
    ensures
        proj(ax, corner_spec(r, 0)) == k * (c + h),
        proj(ax, corner_spec(r, 1)) == k * (c + h),
        proj(ax, corner_spec(r, 2)) == k * (c - h),
        proj(ax, corner_spec(r, 3)) == k * (c - h),
{
    lemma_zero_rect_corners(r);
    assert(proj(ax, corner_spec(r, 0)) == k * (c + h)) by (nonlinear_arith)
        requires
            ax.0 == 0,
            ax.1 == k,
            corner_spec(r, 0).1 == c + h,
            proj(ax, corner_spec(r, 0)) == ax.0 * corner_spec(r, 0).0 + ax.1 * corner_spec(
                r,
                0,
            ).1,
    ;
    assert(proj(ax, corner_spec(r, 1)) == k * (c + h)) by (nonlinear_arith)
        requires
            ax.0 == 0,
            ax.1 == k,
            corner_spec(r, 1).1 == c + h,
            proj(ax, corner_spec(r, 1)) == ax.0 * corner_spec(r, 1).0 + ax.1 * corner_spec(
                r,
                1,
            ).1,
    ;
    assert(proj(ax, corner_spec(r, 2)) == k * (c - h)) by (nonlinear_arith)
        requires
            ax.0 == 0,
            ax.1 == k,
            corner_spec(r, 2).1 == c - h,
            proj(ax, corner_spec(r, 2)) == ax.0 * corner_spec(r, 2).0 + ax.1 * corner_spec(
                r,
                2,
            ).1,
    ;
    assert(proj(ax, corner_spec(r, 3)) == k * (c - h)) by (nonlinear_arith)
        requires
            ax.0 == 0,
            ax.1 == k,
            corner_spec(r, 3).1 == c - h,
            proj(ax, corner_spec(r, 3)) == ax.0 * corner_spec(r, 3).0 + ax.1 * corner_spec(
                r,
                3,
            ).1,
    ;
}

/// On a horizontal axis `(k, 0)`, the corner projections of an unrotated box
/// are its x extremes scaled by `k`.
proof fn lemma_projs_horizontal(ax: (int, int), r: Rect, k: int, c: int, h: int)
    requires
        rect_ok(r),
        rotor_is_zero(r.angle),
        ax == (k, 0int),
        c == r.position.0,
        h == half_x(r),
    ensures
        proj(ax, corner_spec(r, 0)) == k * (c - h),
        proj(ax, corner_spec(r, 1)) == k * (c + h),
        proj(ax, corner_spec(r, 2)) == k * (c + h),
        proj(ax, corner_spec(r, 3)) == k * (c - h),
{
    lemma_zero_rect_corners(r);
    assert(proj(ax, corner_spec(r, 0)) == k * (c - h)) by (nonlinear_arith)
        requires
            ax.0 == k,
            ax.1 == 0,
            corner_spec(r, 0).0 == c - h,
            proj(ax, corner_spec(r, 0)) == ax.0 * corner_spec(r, 0).0 + ax.1 * corner_spec(
                r,
                0,
            ).1,
    ;
    assert(proj(ax, corner_spec(r, 1)) == k * (c + h)) by (nonlinear_arith)
        requires
            ax.0 == k,
            ax.1 == 0,
            corner_spec(r, 1).0 == c + h,
            proj(ax, corner_spec(r, 1)) == ax.0 * corner_spec(r, 1).0 + ax.1 * corner_spec(
                r,
                1,
            ).1,
    ;
    assert(proj(ax, corner_spec(r, 2)) == k * (c + h)) by (nonlinear_arith)
        requires
            ax.0 == k,
            ax.1 == 0,
            corner_spec(r, 2).0 == c + h,
            proj(ax, corner_spec(r, 2)) == ax.0 * corner_spec(r, 2).0 + ax.1 * corner_spec(
                r,
                2,
            ).1,
    ;
    assert(proj(ax, corner_spec(r, 3)) == k * (c - h)) by (nonlinear_arith)
        requires
            ax.0 == k,
            ax.1 == 0,
            corner_spec(r, 3).0 == c - h,
            proj(ax, corner_spec(r, 3)) == ax.0 * corner_spec(r, 3).0 + ax.1 * corner_spec(
                r,
                3,
            ).1,
    ;
}

/// Intervals scaled by a nonzero factor are disjoint exactly when the
/// unscaled intervals are.
proof fn lemma_scaled_disjoint(k: int, ac: int, ah: int, bc: int, bh: int)
    requires
        k != 0,
    ensures
        ({
            let alo = -max_int(-(ac + ah), -(ac - ah));
            let ahi = max_int(ac + ah, ac - ah);
            let blo = -max_int(-(bc + bh), -(bc - bh));
            let bhi = max_int(bc + bh, bc - bh);
            let salo = -max_int(-(k * (ac + ah)), -(k * (ac - ah)));
            let sahi = max_int(k * (ac + ah), k * (ac - ah));
            let sblo = -max_int(-(k * (bc + bh)), -(k * (bc - bh)));
            let sbhi = max_int(k * (bc + bh), k * (bc - bh));
            (sahi < sblo || salo > sbhi) <==> (ahi < blo || alo > bhi)
        }),
{
    if k > 0 {
        assert forall|u: int, v: int| u < v implies #[trigger] (k * u) < #[trigger] (k * v) by {
            assert(k * u < k * v) by (nonlinear_arith)
                requires
                    k > 0,
                    u < v,
            ;
        }
        assert forall|u: int, v: int| u <= v implies #[trigger] (k * u) <= #[trigger] (k * v) by {
            assert(k * u <= k * v) by (nonlinear_arith)
                requires
                    k > 0,
                    u <= v,
            ;
        }
    } else {
        assert forall|u: int, v: int| u < v implies #[trigger] (k * u) > #[trigger] (k * v) by {
            assert(k * u > k * v) by (nonlinear_arith)
                requires
                    k < 0,
                    u < v,
            ;
        }
        assert forall|u: int, v: int| u <= v implies #[trigger] (k * u) >= #[trigger] (k * v) by {
            assert(k * u >= k * v) by (nonlinear_arith)
                requires
                    k < 0,
                    u <= v,
            ;
        }
    }
}

/// Fast-path consistency: for two unrotated boxes that are not degenerate
/// flat segments on a shared line and whose envelopes do not touch exactly,
/// the general separating-axis test and the axis-aligned envelope fast path
/// agree.
#[verifier::rlimit(100)]
#[verifier::spinoff_prover]
pub proof fn lemma_fast_path_consistency(a: Rect, b: Rect)
    requires
        rect_ok(a),
        rect_ok(b),
        rotor_is_zero(a.angle),
        rotor_is_zero(b.angle),
        half_x(a) != 0 || half_x(b) != 0,
        half_y(a) != 0 || half_y(b) != 0,
        env_max_x(a) != env_min_x(b),
        env_max_x(b) != env_min_x(a),
        env_max_y(a) != env_min_y(b),
        env_max_y(b) != env_min_y(a),
    ensures
        sat_overlap(a, b) == env_overlap(a, b),
{
    lemma_zero_rect_corners(a);
    lemma_zero_rect_corners(b);
    let pax = a.position.0 as int;
    let pay = a.position.1 as int;
    let pbx = b.position.0 as int;
    let pby = b.position.1 as int;
    let hxa = half_x(a);
    let hya = half_y(a);
    let hxb = half_x(b);
    let hyb = half_y(b);
    // Axis 0 of each box scales the y coordinates; axis 1 scales the x coordinates.
    assert(axis_spec(a, 0) == (0int, 2 * hxa));
    assert(axis_spec(a, 1) == (2 * hya, 0int));
    assert(axis_spec(b, 0) == (0int, 2 * hxb));
    assert(axis_spec(b, 1) == (2 * hyb, 0int));
    let ylo_a = -max_int(-(pay + hya), -(pay - hya));
    let yhi_a = max_int(pay + hya, pay - hya);
    let ylo_b = -max_int(-(pby + hyb), -(pby - hyb));
    let yhi_b = max_int(pby + hyb, pby - hyb);
    let xlo_a = -max_int(-(pax + hxa), -(pax - hxa));
    let xhi_a = max_int(pax + hxa, pax - hxa);
    let xlo_b = -max_int(-(pbx + hxb), -(pbx - hxb));
    let xhi_b = max_int(pbx + hxb, pbx - hxb);
    let y_disjoint = yhi_a < ylo_b || ylo_a > yhi_b;
    let x_disjoint = xhi_a < xlo_b || xlo_a > xhi_b;
    if hxa != 0 {
        lemma_projs_vertical(axis_spec(a, 0), a, 2 * hxa, pay, hya);
        lemma_projs_vertical(axis_spec(a, 0), b, 2 * hxa, pby, hyb);
        lemma_scaled_disjoint(2 * hxa, pay, hya, pby, hyb);
        assert(separated_on(axis_spec(a, 0), a, b) <==> y_disjoint);
    } else {
        lemma_projs_vertical(axis_spec(a, 0), a, 0, pay, hya);
        lemma_projs_vertical(axis_spec(a, 0), b, 0, pby, hyb);
        assert(!separated_on(axis_spec(a, 0), a, b));
    }
    if hxb != 0 {
        lemma_projs_vertical(axis_spec(b, 0), a, 2 * hxb, pay, hya);
        lemma_projs_vertical(axis_spec(b, 0), b, 2 * hxb, pby, hyb);
        lemma_scaled_disjoint(2 * hxb, pay, hya, pby, hyb);
        assert(separated_on(axis_spec(b, 0), a, b) <==> y_disjoint);
    } else {
        lemma_projs_vertical(axis_spec(b, 0), a, 0, pay, hya);
        lemma_projs_vertical(axis_spec(b, 0), b, 0, pby, hyb);
        assert(!separated_on(axis_spec(b, 0), a, b));
    }
    if hya != 0 {
        lemma_projs_horizontal(axis_spec(a, 1), a, 2 * hya, pax, hxa);
        lemma_projs_horizontal(axis_spec(a, 1), b, 2 * hya, pbx, hxb);
        lemma_scaled_disjoint(2 * hya, pax, hxa, pbx, hxb);
        assert(separated_on(axis_spec(a, 1), a, b) <==> x_disjoint);
    } else {
        lemma_projs_horizontal(axis_spec(a, 1), a, 0, pax, hxa);
        lemma_projs_horizontal(axis_spec(a, 1), b, 0, pbx, hxb);
        assert(!separated_on(axis_spec(a, 1), a, b));
    }
    if hyb != 0 {
        lemma_projs_horizontal(axis_spec(b, 1), a, 2 * hyb, pax, hxa);
        lemma_projs_horizontal(axis_spec(b, 1), b, 2 * hyb, pbx, hxb);
        lemma_scaled_disjoint(2 * hyb, pax, hxa, pbx, hxb);
        assert(separated_on(axis_spec(b, 1), a, b) <==> x_disjoint);
    } else {
        lemma_projs_horizontal(axis_spec(b, 1), a, 0, pax, hxa);
        lemma_projs_horizontal(axis_spec(b, 1), b, 0, pbx, hxb);
        assert(!separated_on(axis_spec(b, 1), a, b));
    }
    assert(sat_overlap(a, b) <==> (!y_disjoint && !x_disjoint));
    assert(env_overlap(a, b) <==> (xhi_a > xlo_b && xhi_b > xlo_a && yhi_a > ylo_b && yhi_b
        > ylo_a));
}

} // verus!
