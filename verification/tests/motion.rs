use scene_core::handle::WeakHash;
use scene_core::position::{EnityPosition, MoveEvent};
use scene_core::rotation::Rotor;
use scene_core::vector::Vector;

#[test]
fn move_toward_no_overshoot() {
    // Position (0,0), target (10,0), speed 5, one tick of 3 seconds: the
    // step would reach 15 units, so the position snaps to the target.
    let mut p = EnityPosition::new(Vector(0, 0));
    p.set_action(MoveEvent::Moveto(Vector(10, 0)));
    p.action(None, 5, 3000);
    assert_eq!(p.get(), Vector(10, 0));
}

#[test]
fn move_toward_partial_step() {
    // Position (0,0), target (10,0), speed 2, one tick of 1 second: two
    // units of progress.
    let mut p = EnityPosition::new(Vector(0, 0));
    p.set_action(MoveEvent::Moveto(Vector(10, 0)));
    p.action(None, 2, 1000);
    assert_eq!(p.get(), Vector(2, 0));
}

#[test]
fn move_direction_uses_direction_only() {
    // The direction vector's own length does not matter.
    let mut p = EnityPosition::new(Vector(0, 0));
    p.set_action(MoveEvent::Moving(Vector(100, 0)));
    p.action(None, 3, 1000);
    assert_eq!(p.get(), Vector(3, 0));
}

#[test]
fn drift_superposition() {
    // One drift of (10,0) over two seconds, integrated as a single tick of
    // two seconds, lands at the same displacement as four ticks of half a
    // second each.
    let mut whole = EnityPosition::new(Vector(0, 0));
    whole.offset(Vector(10, 0), 2000);
    whole.action(None, 0, 2000);
    assert_eq!(whole.get(), Vector(10, 0));

    let mut split = EnityPosition::new(Vector(0, 0));
    split.offset(Vector(10, 0), 2000);
    split.action(None, 0, 500);
    split.action(None, 0, 500);
    split.action(None, 0, 500);
    split.action(None, 0, 500);
    assert_eq!(split.get(), Vector(10, 0));
}

#[test]
fn zero_duration_drift_applies_at_once() {
    let mut p = EnityPosition::new(Vector(1, 1));
    p.offset(Vector(2, 0), 0);
    p.action(None, 0, 16);
    assert_eq!(p.get(), Vector(3, 1));
}

#[test]
fn exclusive_drift_suppresses_queue() {
    // While a timed drift is the primary intent, queued drifts are drained
    // but their contribution is discarded for the tick.
    let mut p = EnityPosition::new(Vector(0, 0));
    p.set_action(MoveEvent::Drift(Vector(8, 0), 1000));
    p.offset(Vector(100, 0), 0);
    p.action(None, 0, 500);
    // Half the exclusive drift applied; the queued (100,0) was discarded.
    assert_eq!(p.get(), Vector(4, 0));
    match p.get_action() {
        MoveEvent::Drift(left, remaining) => {
            assert_eq!(*left, Vector(4, 0));
            assert_eq!(*remaining, 500);
        },
        _ => panic!("exclusive drift should stay active"),
    }
}

#[test]
fn following_resolved_position_moves_toward_it() {
    let mut p = EnityPosition::new(Vector(0, 0));
    p.set_action(MoveEvent::Following(WeakHash::new(7)));
    p.action(Some(Vector(10, 0)), 4, 1000);
    assert_eq!(p.get(), Vector(4, 0));
}

#[test]
fn following_unresolved_stays_put() {
    let mut p = EnityPosition::new(Vector(5, 6));
    p.set_action(MoveEvent::Following(WeakHash::null()));
    p.action(None, 9, 1000);
    assert_eq!(p.get(), Vector(5, 6));
}

#[test]
fn heading_and_intent_accessors() {
    let mut p = EnityPosition::new(Vector(0, 0));
    assert!(matches!(p.get_action(), MoveEvent::Stop));
    p.set_angle(Rotor::new(0, 1000));
    assert_eq!(p.get_angle(), Rotor::new(0, 1000));
    let previous = p.set(Vector(9, 9));
    assert_eq!(previous, Vector(0, 0));
    assert_eq!(p.get(), Vector(9, 9));
}
