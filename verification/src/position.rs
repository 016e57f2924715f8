//! Per-entity, per-space motion state: a position, a heading, one exclusive
//! movement intent, and a queue of independent timed drifts, integrated each
//! tick from the elapsed milliseconds and the entity's speed.

use vstd::prelude::*;
use crate::handle::WeakHash;
use crate::num::{
    clamp_coord, clamp_pos, div_t, div_trunc, div_trunc_128, lemma_scale_sign_range, min_int,
    DELTA_LIMIT, POS_LIMIT, SPEED_LIMIT,
};
use crate::rotation::{rotor_is_zero, rotor_ok, Rotor};
use crate::vector::{bounded_by, by_length_pair, Vector};

verus! {

/// A movement intent. Exactly one is active at a time; independent drifts
/// queue separately beside it.
#[derive(Debug, Clone, Copy, PartialEq, Eq, Structural)]
pub enum MoveEvent {
    /// No movement.
    Stop,
    /// Move toward an absolute position, snapping to it on arrival.
    Moveto(Vector),
    /// Move in this direction at full speed; only the direction matters.
    Moving(Vector),
    /// An exclusive timed drift: the remaining offset and remaining
    /// milliseconds. While active it suppresses the independent drift queue.
    Drift(Vector, u64),
    /// Follow another entity's position in the same space.
    Following(WeakHash),
}

/// Vectors carried by an intent stay inside the world bound.
pub open spec fn event_wf(e: MoveEvent) -> bool {
    match e {
        MoveEvent::Moveto(t) => bounded_by(t, POS_LIMIT as int),
        MoveEvent::Moving(v) => bounded_by(v, POS_LIMIT as int),
        MoveEvent::Drift(v, _) => bounded_by(v, POS_LIMIT as int),
        _ => true,
    }
}

/// The intent is an exclusive timed drift, which suppresses the queue.
pub open spec fn is_exclusive_drift(e: MoveEvent) -> bool {
    e matches MoveEvent::Drift(_, _)
}

/// A drift entry in ghost form: the remaining offset and remaining time.
pub open spec fn dview(e: (Vector, u64)) -> ((int, int), int) {
    ((e.0.0 as int, e.0.1 as int), e.1 as int)
}

/// The ghost view of a drift queue.
pub open spec fn qview(q: Seq<(Vector, u64)>) -> Seq<((int, int), int)> {
    q.map_values(|e: (Vector, u64)| dview(e))
}

/// What one tick of `dt` milliseconds takes out of a drift entry: the whole
/// remaining offset when its time is spent, else the offset scaled by the
/// consumed share of the remaining time.
pub open spec fn entry_contrib(e: ((int, int), int), dt: int) -> (int, int) {
    if e.1 <= 0 {
        e.0
    } else {
        (div_t(e.0.0 * min_int(dt, e.1), e.1), div_t(e.0.1 * min_int(dt, e.1), e.1))
    }
}

/// The entry survives the tick only if time remains after it.
pub open spec fn entry_keep(e: ((int, int), int), dt: int) -> bool {
    e.1 > dt
}

/// The entry after the tick; a finished entry becomes the exhausted entry.
pub open spec fn entry_after(e: ((int, int), int), dt: int) -> ((int, int), int) {
    if entry_keep(e, dt) {
        let c = entry_contrib(e, dt);
        ((e.0.0 - c.0, e.0.1 - c.1), e.1 - dt)
    } else {
        ((0, 0), 0)
    }
}

/// Sum of this tick's contributions over the whole queue.
pub open spec fn queue_sum(q: Seq<((int, int), int)>, dt: int) -> (int, int)
    decreases q.len(),
{
    if q.len() == 0 {
        (0, 0)
    } else {
        let s = queue_sum(q.drop_last(), dt);
        let c = entry_contrib(q.last(), dt);
        (s.0 + c.0, s.1 + c.1)
    }
}

/// The queue after the tick: finished entries flushed out, the rest advanced.
pub open spec fn queue_after(q: Seq<((int, int), int)>, dt: int) -> Seq<((int, int), int)>
    decreases q.len(),
{
    if q.len() == 0 {
        Seq::empty()
    } else {
        let r = queue_after(q.drop_last(), dt);
        if entry_keep(q.last(), dt) {
            r.push(entry_after(q.last(), dt))
        } else {
            r
        }
    }
}

/// Length of this tick's step at the given speed: `speed * delta / 1000`
/// units for `delta` milliseconds.
pub open spec fn step_len(speed: int, delta: int) -> int {
    div_t(speed * delta, 1000)
}

/// The displacement of the primary intent this tick. `follow` is the followed
/// entity's current position, or nothing when the target is destroyed or
/// cannot be resolved.
pub open spec fn main_disp(
    main: MoveEvent,
    pos: Vector,
    follow: Option<Vector>,
    speed: int,
    delta: int,
) -> (int, int) {
    let len = step_len(speed, delta);
    match main {
        MoveEvent::Stop => (0, 0),
        MoveEvent::Moveto(t) => {
            let dx = t.0 - pos.0;
            let dy = t.1 - pos.1;
            if dx * dx + dy * dy > len * len {
                by_length_pair(dx, dy, len)
            } else {
                (dx, dy)
            }
        },
        MoveEvent::Moving(v) => by_length_pair(v.0 as int, v.1 as int, len),
        MoveEvent::Drift(v, rem) => {
            if rem == 0 {
                (0, 0)
            } else {
                entry_contrib(((v.0 as int, v.1 as int), rem as int), delta)
            }
        },
        MoveEvent::Following(_) => {
            match follow {
                Option::None => (0, 0),
                Option::Some(p) => by_length_pair(p.0 - pos.0, p.1 - pos.1, len),
            }
        },
    }
}

/// How the primary intent evolves over one tick: only an exclusive drift with
/// time remaining is consumed in place; every other intent persists.
pub open spec fn main_evolves(old_m: MoveEvent, delta: int, new_m: MoveEvent) -> bool {
    match old_m {
        MoveEvent::Drift(v, rem) => {
            if rem == 0 {
                new_m == old_m
            } else {
                let c = entry_contrib(((v.0 as int, v.1 as int), rem as int), delta);
                &&& new_m matches MoveEvent::Drift(v2, rem2)
                &&& v2.0 == v.0 - c.0
                &&& v2.1 == v.1 - c.1
                &&& rem2 == rem - min_int(delta, rem as int)
            }
        },
        _ => new_m == old_m,
    }
}

/// The position after a tick, from the intent, position, and drift queue: the
/// previous position plus the primary intent's displacement, plus the
/// drift-queue sum unless an exclusive drift suppresses it, clamped to the
/// world bound.
pub open spec fn new_pos_from(
    main: MoveEvent,
    pos: Vector,
    q: Seq<((int, int), int)>,
    follow: Option<Vector>,
    speed: int,
    delta: int,
) -> (int, int) {
    let md = main_disp(main, pos, follow, speed, delta);
    let qs = queue_sum(q, delta);
    let ss = if is_exclusive_drift(main) {
        (0, 0)
    } else {
        qs
    };
    (clamp_pos(pos.0 + md.0 + ss.0), clamp_pos(pos.1 + md.1 + ss.1))
}

/// The position after a tick of a whole motion state.
pub open spec fn new_pos_spec(
    p: EnityPosition,
    follow: Option<Vector>,
    speed: int,
    delta: int,
) -> (int, int) {
    new_pos_from(p.main, p.position, qview(p.drifts@), follow, speed, delta)
}

/// Per-entity, per-space motion state.
#[derive(Debug, Clone)]
pub struct EnityPosition {
    pub main: MoveEvent,
    pub drifts: Vec<(Vector, u64)>,
    pub position: Vector,
    pub angle: Rotor,
}

/// Well-formedness: every carried vector inside the world bound, a valid rotor.
pub open spec fn pos_wf(p: EnityPosition) -> bool {
    &&& bounded_by(p.position, POS_LIMIT as int)
    &&& rotor_ok(p.angle)
    &&& event_wf(p.main)
    &&& forall|i: int|
        0 <= i < p.drifts@.len() ==> bounded_by((#[trigger] p.drifts@[i]).0, POS_LIMIT as int)
}

impl EnityPosition {
    /// A motion state at rest at the given position.
    pub fn new(position: Vector) -> (r: EnityPosition)
        requires
            bounded_by(position, POS_LIMIT as int),
        ensures
            r.position == position,
            r.main == MoveEvent::Stop,
            r.drifts@.len() == 0,
            rotor_is_zero(r.angle),
            pos_wf(r),
    {
        EnityPosition {
            position,
            angle: Rotor::zero(),
            main: MoveEvent::Stop,
            drifts: Vec::new(),
        }
    }

    /// Replace the heading.
    pub fn set_angle(&mut self, angle: Rotor)
        requires
            rotor_ok(angle),
        ensures
            *final(self) == (EnityPosition { angle, ..*old(self) }),
            pos_wf(*old(self)) ==> pos_wf(*final(self)),
    {
        self.angle = angle;
    }

    /// The heading.
    pub fn get_angle(&self) -> (r: Rotor)
        ensures
            r == self.angle,
    {
        self.angle
    }

    /// Replace the primary intent.
    pub fn set_action(&mut self, event: MoveEvent)
        requires
            event_wf(event),
        ensures
            *final(self) == (EnityPosition { main: event, ..*old(self) }),
            pos_wf(*old(self)) ==> pos_wf(*final(self)),
    {
        self.main = event;
    }

    /// The primary intent.
    pub fn get_action(&self) -> (r: &MoveEvent)
        ensures
            r == self.main,
    {
        &self.main
    }

    /// Queue an independent drift: an offset applied over `spend` milliseconds.
    pub fn offset(&mut self, offset: Vector, spend: u64)
        requires
            bounded_by(offset, POS_LIMIT as int),
        ensures
            final(self).drifts@ == old(self).drifts@.push((offset, spend)),
            final(self).main == old(self).main,
            final(self).position == old(self).position,
            final(self).angle == old(self).angle,
            pos_wf(*old(self)) ==> pos_wf(*final(self)),
    {
        self.drifts.push((offset, spend));
    }

    /// The current position.
    pub fn get(&self) -> (r: Vector)
        ensures
            r == self.position,
    {
        self.position
    }

    /// Replace the position, returning the previous one.
    pub fn set(&mut self, position: Vector) -> (r: Vector)
        requires
            bounded_by(position, POS_LIMIT as int),
        ensures
            r == old(self).position,
            *final(self) == (EnityPosition { position, ..*old(self) }),
            pos_wf(*old(self)) ==> pos_wf(*final(self)),
    {
        let previous = self.position;
        self.position = position;
        previous
    }

    /// Integrate one tick of `delta` milliseconds at the given speed.
    ///
    /// `follow` is the followed entity's current position in this space, or
    /// nothing when the target is destroyed or cannot be resolved; a
    /// `Following` intent then contributes no displacement this tick.
    pub fn action(&mut self, follow: Option<Vector>, speed: i64, delta: u64)
        requires
            pos_wf(*old(self)),
            0 <= speed <= SPEED_LIMIT,
            delta <= DELTA_LIMIT,
            follow matches Some(p) ==> bounded_by(p, POS_LIMIT as int),
        ensures
            pos_wf(*final(self)),
            final(self).angle == old(self).angle,
            main_evolves(old(self).main, delta as int, final(self).main),
            qview(final(self).drifts@) == queue_after(qview(old(self).drifts@), delta as int),
            (final(self).position.0 as int, final(self).position.1 as int) == new_pos_spec(
                *old(self),
                follow,
                speed as int,
                delta as int,
            ),
    {
        proof {
            assert(0 <= (speed as int) * (delta as int) <= 2 * POS_LIMIT * 1000) by (nonlinear_arith)
                requires
                    0 <= speed <= SPEED_LIMIT,
                    0 <= delta <= DELTA_LIMIT,
                    SPEED_LIMIT == 1_000_000_000i64,
                    DELTA_LIMIT == 1_000_000u64,
                    POS_LIMIT == 1_000_000_000_000i64,
            ;
            crate::num::lemma_div_t_bound((speed as int) * (delta as int), 2 * POS_LIMIT as int, 1000);
            vstd::arithmetic::div_mod::lemma_div_pos_is_pos((speed as int) * (delta as int), 1000);
        }
        let len: i64 = div_trunc(speed * (delta as i64), 1000);
        let mut disp = Vector(0, 0);
        let mut force_drift = false;
        match self.main {
            MoveEvent::Stop => {},
            MoveEvent::Moveto(t) => {
                let d = self.position.to(t);
                let m = d.distance_magnitude();
                proof {
                    assert((len as int) * (len as int) <= u128::MAX) by (nonlinear_arith)
                        requires
                            0 <= len <= 2_000_000_000_000i64,
                    ;
                }
                if m > (len as u128) * (len as u128) {
                    disp = d.by_length(len);
                } else {
                    disp = d;
                }
            },
            MoveEvent::Moving(v) => {
                disp = v.by_length(len);
            },
            MoveEvent::Drift(v, rem) => {
                force_drift = true;
                if rem > 0 {
                    let used: u64 = if delta < rem {
                        delta
                    } else {
                        rem
                    };
                    proof {
                        lemma_scale_sign_range(v.0 as int, used as int, rem as int);
                        lemma_scale_sign_range(v.1 as int, used as int, rem as int);
                        assert(-(POS_LIMIT as i128) * (DELTA_LIMIT as i128) <= (v.0 as i128) * (
                        used as i128) <= (POS_LIMIT as i128) * (DELTA_LIMIT as i128)
                            && -(POS_LIMIT as i128) * (DELTA_LIMIT as i128) <= (v.1 as i128) * (
                        used as i128) <= (POS_LIMIT as i128) * (DELTA_LIMIT as i128))
                            by (nonlinear_arith)
                            requires
                                -POS_LIMIT <= v.0 <= POS_LIMIT,
                                -POS_LIMIT <= v.1 <= POS_LIMIT,
                                0 <= used <= DELTA_LIMIT,
                        ;
                    }
                    let sx: i128 = div_trunc_128((v.0 as i128) * (used as i128), rem as i128);
                    let sy: i128 = div_trunc_128((v.1 as i128) * (used as i128), rem as i128);
                    disp = Vector(sx as i64, sy as i64);
                    self.main = MoveEvent::Drift(
                        Vector(v.0 - (sx as i64), v.1 - (sy as i64)),
                        rem - used,
                    );
                }
            },
            MoveEvent::Following(_) => {
                match follow {
                    None => {},
                    Some(p) => {
                        let d = self.position.to(p);
                        disp = d.by_length(len);
                    },
                }
            },
        }
        proof {
            assert(bounded_by(disp, 2 * POS_LIMIT as int));
        }
        let dlen: usize = self.drifts.len();
        let ghost dn = dlen as int;
        let (qx, qy) = drain_drifts(&mut self.drifts, delta);
        proof {
            assert(dn * (POS_LIMIT as int) <= 0x1_0000_0000_0000_0000 * 1_000_000_000_000)
                by (nonlinear_arith)
                requires
                    0 <= dn <= 0xFFFF_FFFF_FFFF_FFFFu64,
                    POS_LIMIT == 1_000_000_000_000i64,
            ;
        }
        let bx: i128 = (self.position.0 as i128) + (disp.0 as i128) + if force_drift {
            0
        } else {
            qx
        };
        let by: i128 = (self.position.1 as i128) + (disp.1 as i128) + if force_drift {
            0
        } else {
            qy
        };
        self.position = Vector(clamp_coord(bx), clamp_coord(by));
    }
}

impl Default for EnityPosition {
    /// A motion state at rest at the origin.
    fn default() -> (r: EnityPosition)
        ensures
            r.position == (Vector(0i64, 0i64)),
            r.main == MoveEvent::Stop,
            r.drifts@.len() == 0,
            rotor_is_zero(r.angle),
            pos_wf(r),
    {
        EnityPosition::new(Vector(0, 0))
    }
}

/// Drain the drift queue for one tick: sum this tick's contributions, advance
/// surviving entries in place, and drop finished ones.
fn drain_drifts(drifts: &mut Vec<(Vector, u64)>, delta: u64) -> (sum: (i128, i128))
    requires
        delta <= DELTA_LIMIT,
        forall|i: int|
            0 <= i < old(drifts)@.len() ==> bounded_by(
                (#[trigger] old(drifts)@[i]).0,
                POS_LIMIT as int,
            ),
    ensures
        (sum.0 as int, sum.1 as int) == queue_sum(qview(old(drifts)@), delta as int),
        qview(final(drifts)@) == queue_after(qview(old(drifts)@), delta as int),
        forall|i: int|
            0 <= i < final(drifts)@.len() ==> bounded_by(
                (#[trigger] final(drifts)@[i]).0,
                POS_LIMIT as int,
            ),
        -(old(drifts)@.len() * POS_LIMIT) <= sum.0 <= old(drifts)@.len() * POS_LIMIT,
        -(old(drifts)@.len() * POS_LIMIT) <= sum.1 <= old(drifts)@.len() * POS_LIMIT,
{
    let ghost q0 = drifts@;
    let mut out: Vec<(Vector, u64)> = Vec::new();
    let mut sx: i128 = 0;
    let mut sy: i128 = 0;
    let n = drifts.len();
    let mut i: usize = 0;
    while i < n
        invariant
            drifts@ == q0,
            n == q0.len(),
            0 <= i <= n,
            delta <= DELTA_LIMIT,
            forall|j: int|
                0 <= j < q0.len() ==> bounded_by((#[trigger] q0[j]).0, POS_LIMIT as int),
            (sx as int, sy as int) == queue_sum(qview(q0.subrange(0, i as int)), delta as int),
            qview(out@) == queue_after(qview(q0.subrange(0, i as int)), delta as int),
            forall|j: int|
                0 <= j < out@.len() ==> bounded_by((#[trigger] out@[j]).0, POS_LIMIT as int),
            -((i as int) * POS_LIMIT) <= sx <= (i as int) * POS_LIMIT,
            -((i as int) * POS_LIMIT) <= sy <= (i as int) * POS_LIMIT,
        decreases n - i,
    {
        let (v, tot) = drifts[i];
        proof {
            assert(q0.subrange(0, (i + 1) as int).drop_last() =~= q0.subrange(0, i as int));
            assert(q0.subrange(0, (i + 1) as int).last() == q0[i as int]);
            assert(qview(q0.subrange(0, (i + 1) as int)).drop_last() =~= qview(
                q0.subrange(0, i as int),
            ));
            assert(qview(q0.subrange(0, (i + 1) as int)).last() == dview(q0[i as int]));
            assert(qview(q0.subrange(0, (i + 1) as int)).len() > 0);
        }
        if tot == 0 {
            sx = sx + (v.0 as i128);
            sy = sy + (v.1 as i128);
        } else {
            let used: u64 = if delta < tot {
                delta
            } else {
                tot
            };
            proof {
                lemma_scale_sign_range(v.0 as int, used as int, tot as int);
                lemma_scale_sign_range(v.1 as int, used as int, tot as int);
                assert(-(i128::MAX as int) < (v.0 as int) * (used as int) < i128::MAX as int
                    && -(i128::MAX as int) < (v.1 as int) * (used as int) < i128::MAX as int)
                    by (nonlinear_arith)
                    requires
                        -POS_LIMIT <= v.0 <= POS_LIMIT,
                        -POS_LIMIT <= v.1 <= POS_LIMIT,
                        0 <= used,
                        used <= u64::MAX,
                        POS_LIMIT == 1_000_000_000_000i64,
                ;
            }
            let px: i128 = (v.0 as i128) * (used as i128);
            let py: i128 = (v.1 as i128) * (used as i128);
            let scx: i128 = div_trunc_128(px, tot as i128);
            let scy: i128 = div_trunc_128(py, tot as i128);
            sx = sx + scx;
            sy = sy + scy;
            if tot > delta {
                let nv = Vector(v.0 - (scx as i64), v.1 - (scy as i64));
                out.push((nv, tot - used));
                proof {
                    assert(qview(out@).drop_last() =~= qview(out@.drop_last()));
                    assert(dview(out@.last()) == entry_after(dview(q0[i as int]), delta as int));
                }
            }
        }
        i = i + 1;
    }
    proof {
        assert(q0.subrange(0, n as int) =~= q0);
    }
    *drifts = out;
    (sx, sy)
}

/// One tick takes out of a drift entry exactly what it keeps back: the
/// contribution plus the surviving offset is the old offset, and a finished
/// entry has handed over everything.
pub proof fn lemma_drift_step_conserves(e: ((int, int), int), dt: int)
    requires
        dt >= 0,
    ensures
        entry_contrib(e, dt).0 + entry_after(e, dt).0.0 == e.0.0,
        entry_contrib(e, dt).1 + entry_after(e, dt).0.1 == e.0.1,
{
    if e.1 <= 0 {
    } else if entry_keep(e, dt) {
    } else {
        // The whole remaining time is consumed, so the scale is exact.
        assert(min_int(dt, e.1) == e.1);
        crate::num::lemma_div_t_exact(e.0.0, e.1);
        crate::num::lemma_div_t_exact(e.0.1, e.1);
        assert(e.0.0 * e.1 == e.0.0 * e.1);
    }
}

/// Total contribution of one drift entry over a whole schedule of ticks.
pub open spec fn schedule_contrib(e: ((int, int), int), dts: Seq<int>) -> (int, int)
    decreases dts.len(),
{
    if dts.len() == 0 {
        (0, 0)
    } else {
        let c = entry_contrib(e, dts.first());
        let r = schedule_contrib(entry_after(e, dts.first()), dts.drop_first());
        (c.0 + r.0, c.1 + r.1)
    }
}

/// Drift superposition: however a drift's duration is cut into ticks, once the
/// schedule covers the whole duration the entry has contributed exactly its
/// original offset — one tick of the full duration and many short ticks land
/// in the same place.
pub proof fn lemma_drift_superposition(e: ((int, int), int), dts: Seq<int>)
    requires
        e.1 >= 0,
        dts.len() >= 1,
        forall|i: int| 0 <= i < dts.len() ==> #[trigger] dts[i] >= 0,
        sum_seq(dts) >= e.1,
    ensures
        schedule_contrib(e, dts) == e.0,
    decreases dts.len(),
{
    let dt = dts.first();
    let rest = dts.drop_first();
    lemma_drift_step_conserves(e, dt);
    if entry_keep(e, dt) {
        // Time remains: the rest of the schedule still covers it.
        assert(forall|i: int| 0 <= i < rest.len() ==> #[trigger] rest[i] >= 0);
        assert(rest.len() >= 1) by {
            if rest.len() == 0 {
                assert(sum_seq(rest) == 0);
            }
        }
        lemma_drift_superposition(entry_after(e, dt), rest);
    } else {
        // The entry is finished; later ticks add nothing.
        lemma_schedule_of_exhausted(rest);
    }
}

/// The splitting law on a concrete instance: a two-second (10,0) drift cut
/// into four half-second ticks contributes exactly (10,0), just as the
/// single two-second tick does.
pub proof fn lemma_drift_split_four_ticks()
    ensures
        schedule_contrib(((10, 0), 2000), seq![500int, 500int, 500int, 500int]) == (10int, 0int),
        schedule_contrib(((10, 0), 2000), seq![2000int]) == (10int, 0int),
{
    let dts4 = seq![500int, 500int, 500int, 500int];
    let dts1 = seq![2000int];
    let d3 = seq![500int, 500int, 500int];
    let d2 = seq![500int, 500int];
    let d1 = seq![500int];
    let d0: Seq<int> = Seq::empty();
    assert(dts4.drop_first() =~= d3);
    assert(d3.drop_first() =~= d2);
    assert(d2.drop_first() =~= d1);
    assert(d1.drop_first() =~= d0);
    assert(dts1.drop_first() =~= d0);
    assert(sum_seq(d0) == 0);
    assert(sum_seq(d1) == 500);
    assert(sum_seq(d2) == 1000);
    assert(sum_seq(d3) == 1500);
    assert(sum_seq(dts4) == 2000);
    assert(sum_seq(dts1) == 2000);
    lemma_drift_superposition(((10, 0), 2000), dts4);
    lemma_drift_superposition(((10, 0), 2000), dts1);
}

/// The exhausted entry contributes nothing on any schedule.
proof fn lemma_schedule_of_exhausted(dts: Seq<int>)
    requires
        forall|i: int| 0 <= i < dts.len() ==> #[trigger] dts[i] >= 0,
    ensures
        schedule_contrib(((0, 0), 0), dts) == (0int, 0int),
    decreases dts.len(),
{
    if dts.len() == 0 {
    } else {
        assert(dts.first() >= 0);
        assert(entry_after(((0int, 0int), 0int), dts.first()) == ((0int, 0int), 0int));
        assert(forall|i: int|
            0 <= i < dts.drop_first().len() ==> #[trigger] dts.drop_first()[i] >= 0);
        lemma_schedule_of_exhausted(dts.drop_first());
    }
}

/// Sum of a schedule of tick durations.
pub open spec fn sum_seq(dts: Seq<int>) -> int
    decreases dts.len(),
{
    if dts.len() == 0 {
        0
    } else {
        dts.first() + sum_seq(dts.drop_first())
    }
}

/// Following a destroyed or unresolvable target leaves the position unchanged
/// that tick, when no independent drifts are queued.
pub proof fn lemma_follow_on_destroyed(p: EnityPosition, speed: int, delta: int)
    requires
        pos_wf(p),
        p.main matches MoveEvent::Following(_),
        p.drifts@.len() == 0,
    ensures
        new_pos_spec(p, None, speed, delta) == (p.position.0 as int, p.position.1 as int),
{
    assert(queue_sum(qview(p.drifts@), delta) == (0int, 0int)) by {
        assert(qview(p.drifts@).len() == 0);
    }
}

} // verus!
