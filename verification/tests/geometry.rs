use scene_core::rect::Rect;
use scene_core::rotation::Rotor;
use scene_core::vector::Vector;

#[test]
fn vector_arithmetic_exact() {
    let a = Vector(3, 4);
    let b = Vector(-1, 2);
    assert_eq!(a.add(b), Vector(2, 6));
    assert_eq!(a.sub(b), Vector(4, 2));
    assert_eq!(a.to(b), Vector(-4, -2));
    assert_eq!(a.neg(), Vector(-3, -4));
    assert_eq!(a.normal(), Vector(-4, 3));
    assert_eq!(a.right_normal(), Vector(4, -3));
    assert_eq!(a.distance_magnitude(), 25);
    assert_eq!(a.distance(), 5);
    assert_eq!(a.dot(b), 3 * -1 + 4 * 2);
    assert_eq!(a.cross(b), 3 * 2 - 4 * -1);
    assert_eq!(a.max(b), Vector(3, 4));
    assert_eq!(a.min(b), Vector(-1, 2));
}

#[test]
fn by_length_scales_and_snaps() {
    // A 3-4-5 triangle scaled to length 10 doubles exactly.
    assert_eq!(Vector(3, 4).by_length(10), Vector(6, 8));
    // The zero vector stays zero instead of dividing by zero.
    assert_eq!(Vector(0, 0).by_length(7), Vector(0, 0));
    // Scaling down rounds toward zero.
    assert_eq!(Vector(10, 0).by_length(2), Vector(2, 0));
}

#[test]
fn rotate_quarter_turn() {
    // A quarter turn counterclockwise: (1000, 0) rotor is identity,
    // (0, 1000) maps (x, y) to (-y, x).
    let quarter = Rotor::new(0, 1000);
    assert_eq!(Vector(10, 0).rotate(quarter), Vector(0, 10));
    assert_eq!(Vector(0, 10).rotate(quarter), Vector(-10, 0));
    let identity = Rotor::zero();
    assert_eq!(Vector(7, -3).rotate(identity), Vector(7, -3));
    // 45 degrees with the per-mille rotor (707, 707).
    let eighth = Rotor::new(707, 707);
    assert_eq!(Vector(10, 0).rotate(eighth), Vector(7, 7));
}

#[test]
fn points_and_envelope_axis_aligned() {
    let r = Rect::new(Vector(10, 20), Vector(10, 6));
    let pts = r.points();
    assert_eq!(pts[0], Vector(5, 23));
    assert_eq!(pts[1], Vector(15, 23));
    assert_eq!(pts[2], Vector(15, 17));
    assert_eq!(pts[3], Vector(5, 17));
    let (max, min) = r.maxmin();
    assert_eq!(max, Vector(15, 23));
    assert_eq!(min, Vector(5, 17));
}

#[test]
fn envelope_collision_strict() {
    let a = Rect::new(Vector(0, 0), Vector(10, 10));
    let b = Rect::new(Vector(8, 0), Vector(10, 10));
    let c = Rect::new(Vector(10, 0), Vector(10, 10));
    let far = Rect::new(Vector(30, 0), Vector(10, 10));
    assert!(a.envelope_collision(&b));
    // Exactly touching envelopes do not count as overlap on the fast path.
    assert!(!a.envelope_collision(&c));
    assert!(!a.envelope_collision(&far));
}

#[test]
fn fast_path_and_sat_agree_axis_aligned() {
    let a = Rect::new(Vector(0, 0), Vector(10, 10));
    let b = Rect::new(Vector(8, 0), Vector(10, 10));
    let far = Rect::new(Vector(30, 0), Vector(10, 10));
    assert_eq!(a.envelope_collision(&b), a.sat_collision(&b));
    assert_eq!(a.envelope_collision(&far), a.sat_collision(&far));
    assert!(a.collision(&b));
    assert!(!a.collision(&far));
}

#[test]
fn rotated_overlap_needs_edge_normals() {
    // A square at the origin and a 45-degree square near its corner: the
    // envelope test alone says they meet, the edge-normal projection says
    // they do not. The dual-mode test must take the rotated path.
    let a = Rect::new(Vector(0, 0), Vector(10, 10));
    let b = Rect::new_with_angle(Vector(11, 11), Vector(10, 10), Rotor::new(707, 707));
    assert!(a.envelope_collision(&b));
    assert!(!a.collision(&b));
    // Moved closer, the rotated square truly overlaps.
    let c = Rect::new_with_angle(Vector(8, 8), Vector(10, 10), Rotor::new(707, 707));
    assert!(a.collision(&c));
}

#[test]
fn zero_size_box_is_point_test() {
    let a = Rect::new(Vector(0, 0), Vector(10, 10));
    let inside = Rect::new(Vector(2, 2), Vector(0, 0));
    let outside = Rect::new(Vector(9, 9), Vector(0, 0));
    assert!(a.collision(&inside));
    assert!(!a.collision(&outside));
}
