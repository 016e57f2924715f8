//! An entity record: one identity and one view, plus an independently owned
//! motion state per space. World-space geometry is computed on demand by
//! rotating the view's local boxes by the space's heading and translating by
//! its position.

use vstd::prelude::*;
use crate::base::{base_wf, EnityBase};
use crate::handle::WeakHash;
use crate::hitbox::collision_spec;
use crate::num::{POS_LIMIT, RECT_LIMIT, SIZE_LIMIT};
use crate::position::{pos_wf, EnityPosition, MoveEvent};
use crate::rect::{
    env_max_x, env_max_y, env_min_x, env_min_y, rect_ok, Rect,
};
use crate::render::Texture;
use crate::rotation::{rotate_pair, rotor_is_zero, rotor_ok, Rotor};
use crate::vector::{bounded_by, Vector};
use crate::view::{flat_hitboxes, flat_viewboxes, view_wf, EnityView};

verus! {

/// A local-space box small enough that every world-space computation on it is
/// exact.
pub open spec fn local_rect_ok(r: Rect) -> bool {
    &&& bounded_by(r.position, SIZE_LIMIT as int)
    &&& bounded_by(r.size, SIZE_LIMIT as int)
    &&& rotor_ok(r.angle)
}

/// One entity: identity, view geometry, and per-space motion states keyed by
/// space identifier.
#[derive(Debug, Clone)]
pub struct EnityTrack {
    pub uuid: u64,
    pub base: EnityBase,
    pub view: EnityView,
    pub positions: Vec<(u128, EnityPosition)>,
}

/// The track has a motion state for this space.
pub open spec fn has_space(t: EnityTrack, space: u128) -> bool {
    exists|i: int| 0 <= i < t.positions@.len() && (#[trigger] t.positions@[i]).0 == space
}

/// The index of this space's motion state.
pub open spec fn space_index(t: EnityTrack, space: u128) -> int {
    choose|i: int| 0 <= i < t.positions@.len() && (#[trigger] t.positions@[i]).0 == space
}

/// The heading in this space; angle zero where no state exists yet.
pub open spec fn heading_of(t: EnityTrack, space: u128) -> Rotor {
    if has_space(t, space) {
        t.positions@[space_index(t, space)].1.angle
    } else {
        Rotor { c: crate::num::ROT_ONE, s: 0 }
    }
}

/// The position in this space; the origin where no state exists yet.
pub open spec fn offset_of(t: EnityTrack, space: u128) -> Vector {
    if has_space(t, space) {
        t.positions@[space_index(t, space)].1.position
    } else {
        Vector(0, 0)
    }
}

/// The primary intent in this space; at rest where no state exists yet.
pub open spec fn main_of(t: EnityTrack, space: u128) -> MoveEvent {
    if has_space(t, space) {
        t.positions@[space_index(t, space)].1.main
    } else {
        MoveEvent::Stop
    }
}

/// The drift queue in this space, in ghost form; empty where no state exists.
pub open spec fn drifts_of(t: EnityTrack, space: u128) -> Seq<((int, int), int)> {
    if has_space(t, space) {
        crate::position::qview(t.positions@[space_index(t, space)].1.drifts@)
    } else {
        Seq::empty()
    }
}

/// Well-formedness of a track: identity and view well formed, every local box
/// inside the local bound, space keys unique, and every motion state well
/// formed.
pub open spec fn track_wf(t: EnityTrack) -> bool {
    &&& base_wf(t.base)
    &&& view_wf(t.view)
    &&& forall|i: int|
        0 <= i < flat_viewboxes(t.view).len() ==> local_rect_ok(
            (#[trigger] flat_viewboxes(t.view)[i]).0,
        )
    &&& forall|i: int| 0 <= i < flat_hitboxes(t.view).len() ==> local_rect_ok(
        #[trigger] flat_hitboxes(t.view)[i],
    )
    &&& forall|i: int, j: int|
        0 <= i < j < t.positions@.len() ==> (#[trigger] t.positions@[i]).0 != (
        #[trigger] t.positions@[j]).0
    &&& forall|i: int| 0 <= i < t.positions@.len() ==> pos_wf((#[trigger] t.positions@[i]).1)
}

/// A fresh default motion state for `space` was appended at index `idx`, and
/// nothing else changed in the list.
pub open spec fn fresh_slot_appended(
    old_t: EnityTrack,
    new_t: EnityTrack,
    idx: int,
    space: u128,
) -> bool {
    &&& new_t.positions@.len() == old_t.positions@.len() + 1
    &&& idx == old_t.positions@.len()
    &&& forall|j: int|
        0 <= j < old_t.positions@.len() ==> (#[trigger] new_t.positions@[j])
            == old_t.positions@[j]
    &&& new_t.positions@[idx].0 == space
    &&& new_t.positions@[idx].1.position == (Vector(0i64, 0i64))
    &&& new_t.positions@[idx].1.main == MoveEvent::Stop
    &&& new_t.positions@[idx].1.drifts@.len() == 0
    &&& rotor_is_zero(new_t.positions@[idx].1.angle)
}

/// The world position of a local box: its local center rotated by the heading
/// and translated by the space position.
pub open spec fn world_pos(local: Rect, heading: Rotor, offset: Vector) -> (int, int) {
    let r = rotate_pair(local.position.0 as int, local.position.1 as int, heading);
    (offset.0 + r.0, offset.1 + r.1)
}

impl EnityPosition {
    /// An exact copy.
    pub fn clone_exact(&self) -> (r: EnityPosition)
        ensures
            r.main == self.main,
            r.position == self.position,
            r.angle == self.angle,
            r.drifts@ == self.drifts@,
            pos_wf(*self) ==> pos_wf(r),
    {
        let mut drifts: Vec<(Vector, u64)> = Vec::new();
        let n = self.drifts.len();
        let mut i: usize = 0;
        while i < n
            invariant
                i <= n,
                n == self.drifts@.len(),
                drifts@ == self.drifts@.subrange(0, i as int),
            decreases n - i,
        {
            drifts.push(self.drifts[i]);
            proof {
                assert(drifts@ =~= self.drifts@.subrange(0, (i + 1) as int));
            }
            i = i + 1;
        }
        proof {
            assert(self.drifts@.subrange(0, n as int) =~= self.drifts@);
        }
        let r = EnityPosition {
            main: self.main,
            drifts,
            position: self.position,
            angle: self.angle,
        };
        r
    }
}

impl WeakHash {
    /// Resolve the reference against the arena: the identifier of a live slot,
    /// or nothing for a null or dangling reference.
    pub fn upgrade(self, tracks: &Vec<EnityTrack>) -> (r: Option<u64>)
        ensures
            r matches Some(i) ==> (self.id matches Some(j) && j == i && (i as int)
                < tracks@.len()),
            r matches None ==> (self.id matches None || (self.id matches Some(j) && j
                >= tracks@.len())),
            self.id matches Some(j) ==> ((j as int) < tracks@.len() ==> (r matches Some(i) && i
                == j)),
    {
        match self.id {
            None => None,
            Some(i) => {
                if i < tracks.len() as u64 {
                    Some(i)
                } else {
                    None
                }
            },
        }
    }
}

impl EnityTrack {
    /// A fresh record from an identity and a view. The identifier starts at
    /// zero; the scene assigns the real one on insertion.
    pub fn new(base: EnityBase, view: EnityView) -> (r: EnityTrack)
        ensures
            r.base == base,
            r.view == view,
            r.uuid == 0,
            r.positions@.len() == 0,
    {
        EnityTrack { uuid: 0, base, view, positions: Vec::new() }
    }

    /// The entity's stable identifier.
    pub fn uuid(&self) -> (r: u64)
        ensures
            r == self.uuid,
    {
        self.uuid
    }

    /// The identity.
    pub fn base(&self) -> (r: &EnityBase)
        ensures
            r == self.base,
    {
        &self.base
    }

    /// The view geometry.
    pub fn view(&self) -> (r: &EnityView)
        ensures
            r == self.view,
    {
        &self.view
    }

    /// The motion state for this space, if one exists.
    pub fn position(&self, space: u128) -> (r: Option<&EnityPosition>)
        requires
            track_wf(*self),
        ensures
            r matches Some(p) ==> has_space(*self, space) && *p == self.positions@[space_index(
                *self,
                space,
            )].1,
            r matches None ==> !has_space(*self, space),
    {
        let n = self.positions.len();
        let mut i: usize = 0;
        while i < n
            invariant
                track_wf(*self),
                i <= n,
                n == self.positions@.len(),
                forall|j: int| 0 <= j < i ==> (#[trigger] self.positions@[j]).0 != space,
            decreases n - i,
        {
            if self.positions[i].0 == space {
                proof {
                    lemma_space_index_unique(*self, space, i as int);
                }
                return Some(&self.positions[i].1);
            }
            i = i + 1;
        }
        None
    }

    /// The primary intent in this space, at rest where no state exists yet.
    pub fn current_main(&self, space: u128) -> (r: MoveEvent)
        requires
            track_wf(*self),
        ensures
            r == main_of(*self, space),
    {
        match self.position(space) {
            Some(p) => *p.get_action(),
            None => MoveEvent::Stop,
        }
    }

    /// The position in this space, or the origin where no state exists yet.
    pub fn get_position(&self, space: u128) -> (r: Vector)
        requires
            track_wf(*self),
        ensures
            r == offset_of(*self, space),
    {
        match self.position(space) {
            Some(p) => p.get(),
            None => Vector(0, 0),
        }
    }

    /// Index of this space's motion state, creating a default one if absent.
    fn slot(&mut self, space: u128) -> (idx: usize)
        requires
            track_wf(*old(self)),
        ensures
            track_wf(*final(self)),
            final(self).uuid == old(self).uuid,
            final(self).base == old(self).base,
            final(self).view == old(self).view,
            (idx as int) < final(self).positions@.len(),
            final(self).positions@[idx as int].0 == space,
            has_space(*old(self), space) ==> *final(self) == *old(self) && idx as int
                == space_index(*old(self), space),
            !has_space(*old(self), space) ==> fresh_slot_appended(
                *old(self),
                *final(self),
                idx as int,
                space,
            ),
            has_space(*final(self), space),
            space_index(*final(self), space) == idx as int,
    {
        let n = self.positions.len();
        let mut i: usize = 0;
        while i < n
            invariant
                track_wf(*self),
                *self == *old(self),
                i <= n,
                n == self.positions@.len(),
                forall|j: int| 0 <= j < i ==> (#[trigger] self.positions@[j]).0 != space,
            decreases n - i,
        {
            if self.positions[i].0 == space {
                proof {
                    lemma_space_index_unique(*self, space, i as int);
                }
                return i;
            }
            i = i + 1;
        }
        let fresh = EnityPosition::new(Vector(0, 0));
        self.positions.push((space, fresh));
        proof {
            assert(forall|j: int|
                0 <= j < old(self).positions@.len() ==> self.positions@[j] == old(
                    self,
                ).positions@[j]);
            lemma_space_index_unique(*self, space, n as int);
        }
        n
    }

    /// Replace the primary intent of this space's motion state, creating the
    /// state if absent.
    pub fn set_action(&mut self, space: u128, event: MoveEvent)
        requires
            track_wf(*old(self)),
            crate::position::event_wf(event),
        ensures
            track_wf(*final(self)),
            final(self).uuid == old(self).uuid,
            final(self).base == old(self).base,
            final(self).view == old(self).view,
            has_space(*final(self), space),
            forall|s2: u128|
                s2 != space ==> (#[trigger] has_space(*final(self), s2)) == has_space(
                    *old(self),
                    s2,
                ),
            forall|s2: u128|
                s2 != space ==> #[trigger] main_of(*final(self), s2) == main_of(*old(self), s2)
                    && offset_of(*final(self), s2) == offset_of(*old(self), s2) && heading_of(
                    *final(self),
                    s2,
                ) == heading_of(*old(self), s2) && drifts_of(*final(self), s2) == drifts_of(
                    *old(self),
                    s2,
                ),
            final(self).positions@[space_index(*final(self), space)].1.main == event,
            offset_of(*final(self), space) == offset_of(*old(self), space),
            heading_of(*final(self), space) == heading_of(*old(self), space),
    {
        let idx = self.slot(space);
        let ghost mid = *self;
        let mut m = self.positions[idx].1.clone_exact();
        m.set_action(event);
        self.positions[idx] = (space, m);
        proof {
            lemma_update_slot(mid, *self, idx as int, space);
            if has_space(*old(self), space) {
                assert(space_index(*old(self), space) == idx as int);
            } else {
                lemma_frame_after_append(*old(self), mid, idx as int, space);
            }
        }
    }

    /// Replace the heading of this space's motion state, creating the state
    /// if absent.
    pub fn set_angle(&mut self, space: u128, angle: Rotor)
        requires
            track_wf(*old(self)),
            rotor_ok(angle),
        ensures
            track_wf(*final(self)),
            final(self).uuid == old(self).uuid,
            final(self).base == old(self).base,
            final(self).view == old(self).view,
            has_space(*final(self), space),
            forall|s2: u128|
                s2 != space ==> (#[trigger] has_space(*final(self), s2)) == has_space(
                    *old(self),
                    s2,
                ),
            forall|s2: u128|
                s2 != space ==> #[trigger] main_of(*final(self), s2) == main_of(*old(self), s2)
                    && offset_of(*final(self), s2) == offset_of(*old(self), s2) && heading_of(
                    *final(self),
                    s2,
                ) == heading_of(*old(self), s2) && drifts_of(*final(self), s2) == drifts_of(
                    *old(self),
                    s2,
                ),
            heading_of(*final(self), space) == angle,
            offset_of(*final(self), space) == offset_of(*old(self), space),
    {
        let idx = self.slot(space);
        let ghost mid = *self;
        let mut m = self.positions[idx].1.clone_exact();
        m.set_angle(angle);
        self.positions[idx] = (space, m);
        proof {
            lemma_update_slot(mid, *self, idx as int, space);
            if has_space(*old(self), space) {
                assert(space_index(*old(self), space) == idx as int);
            } else {
                lemma_frame_after_append(*old(self), mid, idx as int, space);
            }
        }
    }

    /// Replace the position of this space's motion state, creating the state
    /// if absent.
    pub fn set_position(&mut self, space: u128, position: Vector)
        requires
            track_wf(*old(self)),
            bounded_by(position, POS_LIMIT as int),
        ensures
            track_wf(*final(self)),
            final(self).uuid == old(self).uuid,
            final(self).base == old(self).base,
            final(self).view == old(self).view,
            has_space(*final(self), space),
            forall|s2: u128|
                s2 != space ==> (#[trigger] has_space(*final(self), s2)) == has_space(
                    *old(self),
                    s2,
                ),
            forall|s2: u128|
                s2 != space ==> #[trigger] main_of(*final(self), s2) == main_of(*old(self), s2)
                    && offset_of(*final(self), s2) == offset_of(*old(self), s2) && heading_of(
                    *final(self),
                    s2,
                ) == heading_of(*old(self), s2) && drifts_of(*final(self), s2) == drifts_of(
                    *old(self),
                    s2,
                ),
            offset_of(*final(self), space) == position,
            heading_of(*final(self), space) == heading_of(*old(self), space),
    {
        let idx = self.slot(space);
        let ghost mid = *self;
        let mut m = self.positions[idx].1.clone_exact();
        let _previous = m.set(position);
        self.positions[idx] = (space, m);
        proof {
            lemma_update_slot(mid, *self, idx as int, space);
            if has_space(*old(self), space) {
                assert(space_index(*old(self), space) == idx as int);
            } else {
                lemma_frame_after_append(*old(self), mid, idx as int, space);
            }
        }
    }

    /// Queue an independent drift on this space's motion state, creating the
    /// state if absent.
    pub fn queue_offset(&mut self, space: u128, offset: Vector, spend: u64)
        requires
            track_wf(*old(self)),
            bounded_by(offset, POS_LIMIT as int),
        ensures
            track_wf(*final(self)),
            final(self).uuid == old(self).uuid,
            final(self).base == old(self).base,
            final(self).view == old(self).view,
            has_space(*final(self), space),
            forall|s2: u128|
                s2 != space ==> (#[trigger] has_space(*final(self), s2)) == has_space(
                    *old(self),
                    s2,
                ),
            forall|s2: u128|
                s2 != space ==> #[trigger] main_of(*final(self), s2) == main_of(*old(self), s2)
                    && offset_of(*final(self), s2) == offset_of(*old(self), s2) && heading_of(
                    *final(self),
                    s2,
                ) == heading_of(*old(self), s2) && drifts_of(*final(self), s2) == drifts_of(
                    *old(self),
                    s2,
                ),
            offset_of(*final(self), space) == offset_of(*old(self), space),
            heading_of(*final(self), space) == heading_of(*old(self), space),
            main_of(*final(self), space) == main_of(*old(self), space),
            drifts_of(*final(self), space) == drifts_of(*old(self), space).push(
                ((offset.0 as int, offset.1 as int), spend as int),
            ),
    {
        let idx = self.slot(space);
        let ghost mid = *self;
        let mut m = self.positions[idx].1.clone_exact();
        m.offset(offset, spend);
        self.positions[idx] = (space, m);
        proof {
            lemma_update_slot(mid, *self, idx as int, space);
            if has_space(*old(self), space) {
                assert(space_index(*old(self), space) == idx as int);
            } else {
                lemma_frame_after_append(*old(self), mid, idx as int, space);
            }
        }
    }

    /// Integrate one tick of this space's motion state at the identity's
    /// speed, creating the state if absent. `follow` is the followed entity's
    /// position, resolved by the caller against the live arena.
    pub fn integrate(&mut self, space: u128, follow: Option<Vector>, delta: u64)
        requires
            track_wf(*old(self)),
            delta <= crate::num::DELTA_LIMIT,
            follow matches Some(p) ==> bounded_by(p, POS_LIMIT as int),
        ensures
            track_wf(*final(self)),
            final(self).uuid == old(self).uuid,
            final(self).base == old(self).base,
            final(self).view == old(self).view,
            has_space(*final(self), space),
            forall|s2: u128|
                s2 != space ==> (#[trigger] has_space(*final(self), s2)) == has_space(
                    *old(self),
                    s2,
                ),
            forall|s2: u128|
                s2 != space ==> #[trigger] main_of(*final(self), s2) == main_of(*old(self), s2)
                    && offset_of(*final(self), s2) == offset_of(*old(self), s2) && heading_of(
                    *final(self),
                    s2,
                ) == heading_of(*old(self), s2) && drifts_of(*final(self), s2) == drifts_of(
                    *old(self),
                    s2,
                ),
            heading_of(*final(self), space) == heading_of(*old(self), space),
            crate::position::main_evolves(
                main_of(*old(self), space),
                delta as int,
                main_of(*final(self), space),
            ),
            drifts_of(*final(self), space) == crate::position::queue_after(
                drifts_of(*old(self), space),
                delta as int,
            ),
            (offset_of(*final(self), space).0 as int, offset_of(*final(self), space).1 as int)
                == crate::position::new_pos_from(
                main_of(*old(self), space),
                offset_of(*old(self), space),
                drifts_of(*old(self), space),
                follow,
                old(self).base.speed_spec() as int,
                delta as int,
            ),
    {
        let idx = self.slot(space);
        let ghost mid = *self;
        let mut m = self.positions[idx].1.clone_exact();
        m.action(follow, self.base.speed(), delta);
        self.positions[idx] = (space, m);
        proof {
            lemma_update_slot(mid, *self, idx as int, space);
            if has_space(*old(self), space) {
                assert(space_index(*old(self), space) == idx as int);
            } else {
                lemma_frame_after_append(*old(self), mid, idx as int, space);
            }
        }
    }
}

/// The rectangle's envelope lies within `[-b, b]` on both axes.
pub open spec fn env_within(r: Rect, b: int) -> bool {
    &&& -b <= env_min_x(r)
    &&& env_max_x(r) <= b
    &&& -b <= env_min_y(r)
    &&& env_max_y(r) <= b
}

/// The world box of a local box as a value; exact whenever the local box and
/// the offset are inside their bounds.
pub open spec fn world_box_spec(local: Rect, heading: Rotor, offset: Vector) -> Rect {
    let p = world_pos(local, heading, offset);
    Rect { position: Vector(p.0 as i64, p.1 as i64), size: local.size, angle: heading }
}

/// The world-space hit boxes of a track in a space, as spec values.
pub open spec fn world_boxes_hit(t: EnityTrack, space: u128) -> Seq<Rect> {
    Seq::new(
        flat_hitboxes(t.view).len(),
        |i: int|
            world_box_spec(flat_hitboxes(t.view)[i], heading_of(t, space), offset_of(t, space)),
    )
}

/// The world-space renderable boxes of a track in a space, paired with their
/// textures, in layer order.
pub open spec fn world_view_pairs(t: EnityTrack, space: u128) -> Seq<(Rect, Texture)> {
    Seq::new(
        flat_viewboxes(t.view).len(),
        |i: int|
            (
                world_box_spec(
                    flat_viewboxes(t.view)[i].0,
                    heading_of(t, space),
                    offset_of(t, space),
                ),
                flat_viewboxes(t.view)[i].1,
            ),
    )
}

/// The world-space renderable boxes of a track in a space, as spec values.
pub open spec fn world_boxes_view(t: EnityTrack, space: u128) -> Seq<Rect> {
    Seq::new(
        flat_viewboxes(t.view).len(),
        |i: int|
            world_box_spec(
                flat_viewboxes(t.view)[i].0,
                heading_of(t, space),
                offset_of(t, space),
            ),
    )
}

/// Largest x over the envelopes of a box list.
pub open spec fn union_max_x(bs: Seq<Rect>) -> int
    decreases bs.len(),
{
    if bs.len() <= 1 {
        env_max_x(bs[0])
    } else {
        crate::rect::max_int(union_max_x(bs.drop_last()), env_max_x(bs.last()))
    }
}

/// Largest y over the envelopes of a box list.
pub open spec fn union_max_y(bs: Seq<Rect>) -> int
    decreases bs.len(),
{
    if bs.len() <= 1 {
        env_max_y(bs[0])
    } else {
        crate::rect::max_int(union_max_y(bs.drop_last()), env_max_y(bs.last()))
    }
}

/// Smallest x over the envelopes of a box list.
pub open spec fn union_min_x(bs: Seq<Rect>) -> int
    decreases bs.len(),
{
    if bs.len() <= 1 {
        env_min_x(bs[0])
    } else {
        -crate::rect::max_int(-union_min_x(bs.drop_last()), -env_min_x(bs.last()))
    }
}

/// Smallest y over the envelopes of a box list.
pub open spec fn union_min_y(bs: Seq<Rect>) -> int
    decreases bs.len(),
{
    if bs.len() <= 1 {
        env_min_y(bs[0])
    } else {
        -crate::rect::max_int(-union_min_y(bs.drop_last()), -env_min_y(bs.last()))
    }
}

/// The union envelope of a box list as an axis-aligned rectangle; the zero
/// rectangle for an empty list. The size is the span rounded up to even, so
/// that halving it is exact: the rectangle's own envelope starts exactly at
/// the union minimum and ends at most one unit above the union maximum,
/// containing every box (a center+size rectangle cannot represent an odd
/// span exactly).
pub open spec fn envelope_of(bs: Seq<Rect>) -> Rect {
    if bs.len() == 0 {
        Rect { position: Vector(0i64, 0i64), size: Vector(0i64, 0i64), angle: Rotor { c: crate::num::ROT_ONE, s: 0 } }
    } else {
        let sx = union_max_x(bs) - union_min_x(bs);
        let sy = union_max_y(bs) - union_min_y(bs);
        let ex = sx + sx % 2;
        let ey = sy + sy % 2;
        Rect {
            position: Vector(
                (union_min_x(bs) + ex / 2) as i64,
                (union_min_y(bs) + ey / 2) as i64,
            ),
            size: Vector(ex as i64, ey as i64),
            angle: Rotor { c: crate::num::ROT_ONE, s: 0 },
        }
    }
}

/// The union envelope contains every box: its own envelope starts exactly at
/// the componentwise union minimum and reaches the union maximum, overshooting
/// it by one unit exactly when the span is odd.
pub proof fn lemma_envelope_contains(bs: Seq<Rect>)
    requires
        bs.len() > 0,
        union_max_x(bs) - union_min_x(bs) <= RECT_LIMIT,
        union_max_y(bs) - union_min_y(bs) <= RECT_LIMIT,
        union_min_x(bs) >= -(2 * POS_LIMIT) && union_max_x(bs) <= 2 * POS_LIMIT,
        union_min_y(bs) >= -(2 * POS_LIMIT) && union_max_y(bs) <= 2 * POS_LIMIT,
        union_min_x(bs) <= union_max_x(bs),
        union_min_y(bs) <= union_max_y(bs),
    ensures
        env_min_x(envelope_of(bs)) == union_min_x(bs),
        env_min_y(envelope_of(bs)) == union_min_y(bs),
        env_max_x(envelope_of(bs)) == union_max_x(bs) + (union_max_x(bs) - union_min_x(bs)) % 2,
        env_max_y(envelope_of(bs)) == union_max_y(bs) + (union_max_y(bs) - union_min_y(bs)) % 2,
        forall|j: int|
            0 <= j < bs.len() ==> env_min_x(envelope_of(bs)) <= env_min_x(#[trigger] bs[j])
                && env_max_x(bs[j]) <= env_max_x(envelope_of(bs)) && env_min_y(envelope_of(bs))
                <= env_min_y(bs[j]) && env_max_y(bs[j]) <= env_max_y(envelope_of(bs)),
{
    let e = envelope_of(bs);
    let sx = union_max_x(bs) - union_min_x(bs);
    let sy = union_max_y(bs) - union_min_y(bs);
    crate::num::lemma_div_t_exact((sx + sx % 2) / 2, 2);
    crate::num::lemma_div_t_exact((sy + sy % 2) / 2, 2);
    crate::hitbox::lemma_zero_rect_corners(e);
    assert(env_min_x(e) == union_min_x(bs) && env_max_x(e) == union_min_x(bs) + sx + sx % 2);
    assert(env_min_y(e) == union_min_y(bs) && env_max_y(e) == union_min_y(bs) + sy + sy % 2);
    assert forall|j: int| 0 <= j < bs.len() implies env_min_x(e) <= env_min_x(#[trigger] bs[j])
        && env_max_x(bs[j]) <= env_max_x(e) && env_min_y(e) <= env_min_y(bs[j]) && env_max_y(
        bs[j],
    ) <= env_max_y(e) by {
        lemma_union_env_bounds(bs, j);
    }
}

/// The collision-bucketing envelope of a track in a space.
pub open spec fn hit_env(t: EnityTrack, space: u128) -> Rect {
    envelope_of(world_boxes_hit(t, space))
}

/// The index-placement envelope of a track in a space.
pub open spec fn view_env(t: EnityTrack, space: u128) -> Rect {
    envelope_of(world_boxes_view(t, space))
}

/// Two tracks overlap in a space: some world hit box of one overlaps some
/// world hit box of the other under the dual-mode test.
#[verifier::opaque]
pub open spec fn tracks_overlap(a: EnityTrack, b: EnityTrack, space: u128) -> bool {
    exists|i: int, j: int|
        0 <= i < flat_hitboxes(a.view).len() && 0 <= j < flat_hitboxes(b.view).len()
            && collision_spec(
            #[trigger] world_box_spec(
                flat_hitboxes(a.view)[i],
                heading_of(a, space),
                offset_of(a, space),
            ),
            #[trigger] world_box_spec(
                flat_hitboxes(b.view)[j],
                heading_of(b, space),
                offset_of(b, space),
            ),
        )
}

/// A track's world hit boxes overlap the given box under the dual-mode test.
#[verifier::opaque]
pub open spec fn track_hits_box(t: EnityTrack, space: u128, q: Rect) -> bool {
    exists|i: int|
        0 <= i < flat_hitboxes(t.view).len() && collision_spec(
            #[trigger] world_box_spec(
                flat_hitboxes(t.view)[i],
                heading_of(t, space),
                offset_of(t, space),
            ),
            q,
        )
}

/// A world box built from a well-bounded local box has a small envelope.
pub proof fn lemma_world_box_env(local: Rect, heading: Rotor, offset: Vector)
    requires
        local_rect_ok(local),
        rotor_ok(heading),
        bounded_by(offset, POS_LIMIT as int),
    ensures
        rect_ok(world_box_spec(local, heading, offset)),
        env_within(world_box_spec(local, heading, offset), 2 * POS_LIMIT),
        bounded_by(world_box_spec(local, heading, offset).position, POS_LIMIT + 2 * SIZE_LIMIT),
{
    let w = world_box_spec(local, heading, offset);
    crate::rotation::lemma_rotate_pair_bound(
        local.position.0 as int,
        local.position.1 as int,
        heading,
        SIZE_LIMIT as int,
    );
    assert(bounded_by(w.position, POS_LIMIT + 2 * SIZE_LIMIT));
    crate::num::lemma_div_t_bound(w.size.0 as int, SIZE_LIMIT as int, 2);
    crate::num::lemma_div_t_bound(w.size.1 as int, SIZE_LIMIT as int, 2);
    crate::rotation::lemma_rotate_pair_bound(
        crate::rect::half_x(w),
        crate::rect::half_y(w),
        heading,
        SIZE_LIMIT as int,
    );
    crate::rotation::lemma_rotate_pair_bound(
        -crate::rect::half_x(w),
        crate::rect::half_y(w),
        heading,
        SIZE_LIMIT as int,
    );
    crate::rotation::lemma_rotate_pair_bound(
        crate::rect::half_x(w),
        -crate::rect::half_y(w),
        heading,
        SIZE_LIMIT as int,
    );
    crate::rotation::lemma_rotate_pair_bound(
        -crate::rect::half_x(w),
        -crate::rect::half_y(w),
        heading,
        SIZE_LIMIT as int,
    );
}

/// Every box's envelope lies inside the union envelope.
#[verifier::rlimit(100)]
#[verifier::spinoff_prover]
pub proof fn lemma_union_env_bounds(bs: Seq<Rect>, i: int)
    requires
        0 <= i < bs.len(),
    ensures
        env_max_x(bs[i]) <= union_max_x(bs),
        env_max_y(bs[i]) <= union_max_y(bs),
        union_min_x(bs) <= env_min_x(bs[i]),
        union_min_y(bs) <= env_min_y(bs[i]),
    decreases bs.len(),
{
    if bs.len() <= 1 {
    } else if i == bs.len() - 1 {
    } else {
        lemma_union_env_bounds(bs.drop_last(), i);
    }
}

/// A bound shared by every box's envelope bounds the union values.
proof fn lemma_union_env_within(bs: Seq<Rect>, b: int)
    requires
        bs.len() > 0,
        forall|j: int| 0 <= j < bs.len() ==> env_within(#[trigger] bs[j], b),
    ensures
        -b <= union_min_x(bs) && union_max_x(bs) <= b,
        -b <= union_min_y(bs) && union_max_y(bs) <= b,
        union_min_x(bs) <= union_max_x(bs),
        union_min_y(bs) <= union_max_y(bs),
    decreases bs.len(),
{
    lemma_union_env_bounds(bs, 0);
    if bs.len() > 1 {
        lemma_union_env_within(bs.drop_last(), b);
    }
}

/// The placement envelope of a well-formed track is a well-bounded unrotated
/// rectangle whose extremes stay inside the world bound.
pub proof fn lemma_view_env_ok(t: EnityTrack, space: u128)
    requires
        track_wf(t),
    ensures
        rect_ok(view_env(t, space)),
        rotor_is_zero(view_env(t, space).angle),
        -(2 * POS_LIMIT) - 2 <= env_min_x(view_env(t, space)),
        env_max_x(view_env(t, space)) <= 2 * POS_LIMIT + 2,
        -(2 * POS_LIMIT) - 2 <= env_min_y(view_env(t, space)),
        env_max_y(view_env(t, space)) <= 2 * POS_LIMIT + 2,
        env_min_x(view_env(t, space)) <= env_max_x(view_env(t, space)),
        env_min_y(view_env(t, space)) <= env_max_y(view_env(t, space)),
{
    let bs = world_boxes_view(t, space);
    let e = view_env(t, space);
    if bs.len() == 0 {
        assert(rect_ok(e));
        crate::hitbox::lemma_zero_rect_corners(e);
    } else {
        assert forall|j: int| 0 <= j < bs.len() implies env_within(#[trigger] bs[j], 2 * POS_LIMIT) by {
            lemma_offset_bounded(t, space);
            assert(rotor_ok(heading_of(t, space))) by {
                if has_space(t, space) {
                    assert(pos_wf(t.positions@[space_index(t, space)].1));
                }
            }
            lemma_world_box_env(
                flat_viewboxes(t.view)[j].0,
                heading_of(t, space),
                offset_of(t, space),
            );
            assert(bs[j] == world_box_spec(
                flat_viewboxes(t.view)[j].0,
                heading_of(t, space),
                offset_of(t, space),
            ));
        }
        lemma_union_env_within(bs, 2 * POS_LIMIT);
        lemma_envelope_contains(bs);
    }
}

/// The collision-bucketing envelope of a well-formed track contains every
/// world hit box.
pub proof fn lemma_hit_env_ok(t: EnityTrack, space: u128)
    requires
        track_wf(t),
    ensures
        rotor_is_zero(hit_env(t, space).angle),
        forall|j: int|
            0 <= j < world_boxes_hit(t, space).len() ==> env_min_x(hit_env(t, space)) <= env_min_x(
                #[trigger] world_boxes_hit(t, space)[j],
            ) && env_max_x(world_boxes_hit(t, space)[j]) <= env_max_x(hit_env(t, space))
                && env_min_y(hit_env(t, space)) <= env_min_y(world_boxes_hit(t, space)[j])
                && env_max_y(world_boxes_hit(t, space)[j]) <= env_max_y(hit_env(t, space)),
{
    let bs = world_boxes_hit(t, space);
    if bs.len() > 0 {
        assert forall|j: int| 0 <= j < bs.len() implies env_within(#[trigger] bs[j], 2 * POS_LIMIT) by {
            lemma_offset_bounded(t, space);
            assert(rotor_ok(heading_of(t, space))) by {
                if has_space(t, space) {
                    assert(pos_wf(t.positions@[space_index(t, space)].1));
                }
            }
            lemma_world_box_env(
                flat_hitboxes(t.view)[j],
                heading_of(t, space),
                offset_of(t, space),
            );
            assert(bs[j] == world_box_spec(
                flat_hitboxes(t.view)[j],
                heading_of(t, space),
                offset_of(t, space),
            ));
        }
        lemma_union_env_within(bs, 2 * POS_LIMIT);
        lemma_envelope_contains(bs);
    }
}

/// On unrotated headings, tracks whose world hit boxes truly overlap have
/// meeting collision envelopes: the link from the narrow-phase test to the
/// broad phase, which then guarantees a shared grid cell. On rotated
/// headings the narrow phase is the separating-axis test and this derivation
/// does not apply.
pub proof fn lemma_tracks_overlap_envs_meet(a: EnityTrack, b: EnityTrack, space: u128)
    requires
        track_wf(a),
        track_wf(b),
        rotor_is_zero(heading_of(a, space)),
        rotor_is_zero(heading_of(b, space)),
        tracks_overlap(a, b, space),
    ensures
        env_min_x(hit_env(a, space)) <= env_max_x(hit_env(b, space)),
        env_min_x(hit_env(b, space)) <= env_max_x(hit_env(a, space)),
        env_min_y(hit_env(a, space)) <= env_max_y(hit_env(b, space)),
        env_min_y(hit_env(b, space)) <= env_max_y(hit_env(a, space)),
{
    reveal(tracks_overlap);
    let (i, j): (int, int) = choose|i: int, j: int|
        0 <= i < flat_hitboxes(a.view).len() && 0 <= j < flat_hitboxes(b.view).len()
            && collision_spec(
            #[trigger] world_box_spec(
                flat_hitboxes(a.view)[i],
                heading_of(a, space),
                offset_of(a, space),
            ),
            #[trigger] world_box_spec(
                flat_hitboxes(b.view)[j],
                heading_of(b, space),
                offset_of(b, space),
            ),
        );
    let wa = world_box_spec(flat_hitboxes(a.view)[i], heading_of(a, space), offset_of(a, space));
    let wb = world_box_spec(flat_hitboxes(b.view)[j], heading_of(b, space), offset_of(b, space));
    assert(rotor_is_zero(wa.angle) && rotor_is_zero(wb.angle));
    assert(crate::rect::env_overlap(wa, wb));
    lemma_hit_env_ok(a, space);
    lemma_hit_env_ok(b, space);
    assert(world_boxes_hit(a, space)[i] == wa);
    assert(world_boxes_hit(b, space)[j] == wb);
}

impl EnityTrack {
    /// The world-space renderable boxes in this space: each view box rotated
    /// by the heading and translated by the position, carrying the heading as
    /// its angle.
    pub fn viewbox_object(&self, space: u128) -> (r: Vec<(Rect, Texture)>)
        requires
            track_wf(*self),
        ensures
            r@ == world_view_pairs(*self, space),
            r@.len() == flat_viewboxes(self.view).len(),
            forall|i: int|
                0 <= i < r@.len() ==> (#[trigger] r@[i]).0 == world_box_spec(
                    flat_viewboxes(self.view)[i].0,
                    heading_of(*self, space),
                    offset_of(*self, space),
                ),
            forall|i: int| 0 <= i < r@.len() ==> (#[trigger] r@[i]).1 == flat_viewboxes(
                self.view,
            )[i].1,
            forall|i: int| 0 <= i < r@.len() ==> rect_ok((#[trigger] r@[i]).0),
            forall|i: int| 0 <= i < r@.len() ==> env_within((#[trigger] r@[i]).0, 2 * POS_LIMIT),
    {
        let heading = match self.position(space) {
            Some(p) => p.get_angle(),
            None => crate::rotation::Rotor::zero(),
        };
        let offset = self.get_position(space);
        proof {
            assert(heading == heading_of(*self, space));
            assert(rotor_ok(heading));
            assert(bounded_by(offset, POS_LIMIT as int));
        }
        let boxes = self.view.viewboxes();
        let mut out: Vec<(Rect, Texture)> = Vec::new();
        let n = boxes.len();
        let mut i: usize = 0;
        while i < n
            invariant
                track_wf(*self),
                i <= n,
                n == boxes@.len(),
                boxes@ == flat_viewboxes(self.view),
                heading == heading_of(*self, space),
                rotor_ok(heading),
                offset == offset_of(*self, space),
                bounded_by(offset, POS_LIMIT as int),
                out@.len() == i,
                forall|j: int|
                    0 <= j < i ==> (#[trigger] out@[j]).0 == world_box_spec(
                        flat_viewboxes(self.view)[j].0,
                        heading_of(*self, space),
                        offset_of(*self, space),
                    ),
                forall|j: int| 0 <= j < i ==> (#[trigger] out@[j]).1 == flat_viewboxes(
                    self.view,
                )[j].1,
                forall|j: int| 0 <= j < i ==> rect_ok((#[trigger] out@[j]).0),
                forall|j: int| 0 <= j < i ==> env_within((#[trigger] out@[j]).0, 2 * POS_LIMIT),
            decreases n - i,
        {
            let local = boxes[i].0;
            proof {
                assert(local_rect_ok(local));
                crate::rotation::lemma_rotate_pair_bound(
                    local.position.0 as int,
                    local.position.1 as int,
                    heading,
                    SIZE_LIMIT as int,
                );
                lemma_world_box_env(local, heading, offset);
            }
            let rotated = local.position.rotate(heading);
            let world = Rect {
                position: Vector(offset.0 + rotated.0, offset.1 + rotated.1),
                size: local.size,
                angle: heading,
            };
            out.push((world, boxes[i].1.clone()));
            i = i + 1;
        }
        proof {
            assert(out@ =~= world_view_pairs(*self, space));
        }
        out
    }

    /// The world-space hit boxes in this space.
    pub fn hitbox_object(&self, space: u128) -> (r: Vec<Rect>)
        requires
            track_wf(*self),
        ensures
            r@.len() == flat_hitboxes(self.view).len(),
            forall|i: int|
                0 <= i < r@.len() ==> #[trigger] r@[i] == world_box_spec(
                    flat_hitboxes(self.view)[i],
                    heading_of(*self, space),
                    offset_of(*self, space),
                ),
            forall|i: int| 0 <= i < r@.len() ==> rect_ok(#[trigger] r@[i]),
            forall|i: int| 0 <= i < r@.len() ==> env_within(#[trigger] r@[i], 2 * POS_LIMIT),
    {
        let heading = match self.position(space) {
            Some(p) => p.get_angle(),
            None => crate::rotation::Rotor::zero(),
        };
        let offset = self.get_position(space);
        proof {
            assert(heading == heading_of(*self, space));
            assert(rotor_ok(heading));
            assert(bounded_by(offset, POS_LIMIT as int));
        }
        let boxes = self.view.hitboxes();
        let mut out: Vec<Rect> = Vec::new();
        let n = boxes.len();
        let mut i: usize = 0;
        while i < n
            invariant
                track_wf(*self),
                i <= n,
                n == boxes@.len(),
                boxes@ == flat_hitboxes(self.view),
                heading == heading_of(*self, space),
                rotor_ok(heading),
                offset == offset_of(*self, space),
                bounded_by(offset, POS_LIMIT as int),
                out@.len() == i,
                forall|j: int|
                    0 <= j < i ==> #[trigger] out@[j] == world_box_spec(
                        flat_hitboxes(self.view)[j],
                        heading_of(*self, space),
                        offset_of(*self, space),
                    ),
                forall|j: int| 0 <= j < i ==> rect_ok(#[trigger] out@[j]),
                forall|j: int| 0 <= j < i ==> env_within(#[trigger] out@[j], 2 * POS_LIMIT),
            decreases n - i,
        {
            let local = boxes[i];
            proof {
                assert(local_rect_ok(local));
                crate::rotation::lemma_rotate_pair_bound(
                    local.position.0 as int,
                    local.position.1 as int,
                    heading,
                    SIZE_LIMIT as int,
                );
                lemma_world_box_env(local, heading, offset);
            }
            let rotated = local.position.rotate(heading);
            let world = Rect {
                position: Vector(offset.0 + rotated.0, offset.1 + rotated.1),
                size: local.size,
                angle: heading,
            };
            out.push(world);
            i = i + 1;
        }
        out
    }

    /// The union envelope of the world-space renderable boxes, as an
    /// axis-aligned rectangle; the zero rectangle when there are none. Used
    /// for spatial-index placement.
    pub fn viewbox(&self, space: u128) -> (r: Rect)
        requires
            track_wf(*self),
        ensures
            r == view_env(*self, space),
            rect_ok(r),
            rotor_is_zero(r.angle),
            bounded_by(r.position, 4 * POS_LIMIT),
            bounded_by(r.size, 4 * POS_LIMIT),
            -(2 * POS_LIMIT) - 2 <= env_min_x(r) && env_max_x(r) <= 2 * POS_LIMIT + 2,
            -(2 * POS_LIMIT) - 2 <= env_min_y(r) && env_max_y(r) <= 2 * POS_LIMIT + 2,
            flat_viewboxes(self.view).len() == 0 ==> r.position == (Vector(0i64, 0i64))
                && r.size == (Vector(0i64, 0i64)),
            flat_viewboxes(self.view).len() > 0 ==> ({
                let bs = world_boxes_view(*self, space);
                &&& env_min_x(r) == union_min_x(bs)
                &&& env_min_y(r) == union_min_y(bs)
                &&& env_max_x(r) == union_max_x(bs) + (union_max_x(bs) - union_min_x(bs)) % 2
                &&& env_max_y(r) == union_max_y(bs) + (union_max_y(bs) - union_min_y(bs)) % 2
                &&& (forall|j: int|
                    0 <= j < bs.len() ==> env_min_x(r) <= env_min_x(#[trigger] bs[j])
                        && env_max_x(bs[j]) <= env_max_x(r) && env_min_y(r) <= env_min_y(bs[j])
                        && env_max_y(bs[j]) <= env_max_y(r))
            }),
    {
        let obj = self.viewbox_object(space);
        let mut world: Vec<Rect> = Vec::new();
        let n = obj.len();
        let mut i: usize = 0;
        while i < n
            invariant
                i <= n,
                n == obj@.len(),
                world@.len() == i,
                forall|j: int| 0 <= j < i ==> #[trigger] world@[j] == obj@[j].0,
                forall|j: int| 0 <= j < obj@.len() ==> rect_ok((#[trigger] obj@[j]).0),
                forall|j: int|
                    0 <= j < obj@.len() ==> env_within((#[trigger] obj@[j]).0, 2 * POS_LIMIT),
            decreases n - i,
        {
            world.push(obj[i].0);
            i = i + 1;
        }
        proof {
            let bs = Seq::new(
                flat_viewboxes(self.view).len(),
                |i: int|
                    world_box_spec(
                        flat_viewboxes(self.view)[i].0,
                        heading_of(*self, space),
                        offset_of(*self, space),
                    ),
            );
            assert(world@ =~= bs);
            assert(world@ =~= world_boxes_view(*self, space));
        }
        let r = union_envelope(&world);
        r
    }

    /// The union envelope of the world-space hit boxes, as an axis-aligned
    /// rectangle; the zero rectangle when there are none. Used for collision
    /// bucketing.
    pub fn hitbox(&self, space: u128) -> (r: Rect)
        requires
            track_wf(*self),
        ensures
            r == hit_env(*self, space),
            rect_ok(r),
            rotor_is_zero(r.angle),
            bounded_by(r.position, 4 * POS_LIMIT),
            bounded_by(r.size, 4 * POS_LIMIT),
            -(2 * POS_LIMIT) - 2 <= env_min_x(r) && env_max_x(r) <= 2 * POS_LIMIT + 2,
            -(2 * POS_LIMIT) - 2 <= env_min_y(r) && env_max_y(r) <= 2 * POS_LIMIT + 2,
            flat_hitboxes(self.view).len() == 0 ==> r.position == (Vector(0i64, 0i64)) && r.size
                == (Vector(0i64, 0i64)),
            flat_hitboxes(self.view).len() > 0 ==> ({
                let bs = world_boxes_hit(*self, space);
                &&& env_min_x(r) == union_min_x(bs)
                &&& env_min_y(r) == union_min_y(bs)
                &&& env_max_x(r) == union_max_x(bs) + (union_max_x(bs) - union_min_x(bs)) % 2
                &&& env_max_y(r) == union_max_y(bs) + (union_max_y(bs) - union_min_y(bs)) % 2
                &&& (forall|j: int|
                    0 <= j < bs.len() ==> env_min_x(r) <= env_min_x(#[trigger] bs[j])
                        && env_max_x(bs[j]) <= env_max_x(r) && env_min_y(r) <= env_min_y(bs[j])
                        && env_max_y(bs[j]) <= env_max_y(r))
            }),
    {
        let world = self.hitbox_object(space);
        proof {
            let bs = Seq::new(
                flat_hitboxes(self.view).len(),
                |i: int|
                    world_box_spec(
                        flat_hitboxes(self.view)[i],
                        heading_of(*self, space),
                        offset_of(*self, space),
                    ),
            );
            assert(world@ =~= bs);
            assert(world@ =~= world_boxes_hit(*self, space));
        }
        let r = union_envelope(&world);
        r
    }

    /// Whether any of this entity's world hit boxes overlaps any of the
    /// other's, in the same space.
    pub fn collision(&self, space: u128, other: &EnityTrack) -> (r: bool)
        requires
            track_wf(*self),
            track_wf(*other),
        ensures
            r == tracks_overlap(*self, *other, space),
    {
        proof {
            reveal(tracks_overlap);
        }
        let mine = self.hitbox_object(space);
        let theirs = other.hitbox_object(space);
        let n = mine.len();
        let m = theirs.len();
        let mut i: usize = 0;
        while i < n
            invariant
                i <= n,
                n == mine@.len(),
                m == theirs@.len(),
                n == flat_hitboxes(self.view).len(),
                m == flat_hitboxes(other.view).len(),
                forall|a: int|
                    0 <= a < n ==> #[trigger] mine@[a] == world_box_spec(
                        flat_hitboxes(self.view)[a],
                        heading_of(*self, space),
                        offset_of(*self, space),
                    ),
                forall|a: int|
                    0 <= a < m ==> #[trigger] theirs@[a] == world_box_spec(
                        flat_hitboxes(other.view)[a],
                        heading_of(*other, space),
                        offset_of(*other, space),
                    ),
                forall|a: int| 0 <= a < n ==> rect_ok(#[trigger] mine@[a]),
                forall|a: int| 0 <= a < m ==> rect_ok(#[trigger] theirs@[a]),
                forall|a: int, b: int|
                    0 <= a < i && 0 <= b < m ==> !collision_spec(
                        #[trigger] mine@[a],
                        #[trigger] theirs@[b],
                    ),
            decreases n - i,
        {
            let mut j: usize = 0;
            while j < m
                invariant
                    i < n,
                    j <= m,
                    n == mine@.len(),
                    m == theirs@.len(),
                    n == flat_hitboxes(self.view).len(),
                    m == flat_hitboxes(other.view).len(),
                    forall|a: int|
                        0 <= a < n ==> #[trigger] mine@[a] == world_box_spec(
                            flat_hitboxes(self.view)[a],
                            heading_of(*self, space),
                            offset_of(*self, space),
                        ),
                    forall|a: int|
                        0 <= a < m ==> #[trigger] theirs@[a] == world_box_spec(
                            flat_hitboxes(other.view)[a],
                            heading_of(*other, space),
                            offset_of(*other, space),
                        ),
                    forall|a: int| 0 <= a < n ==> rect_ok(#[trigger] mine@[a]),
                    forall|a: int| 0 <= a < m ==> rect_ok(#[trigger] theirs@[a]),
                    forall|b: int|
                        0 <= b < j ==> !collision_spec(mine@[i as int], #[trigger] theirs@[b]),
                decreases m - j,
            {
                if mine[i].collision(&theirs[j]) {
                    proof {
                        reveal(tracks_overlap);
                        assert(collision_spec(
                            world_box_spec(
                                flat_hitboxes(self.view)[i as int],
                                heading_of(*self, space),
                                offset_of(*self, space),
                            ),
                            world_box_spec(
                                flat_hitboxes(other.view)[j as int],
                                heading_of(*other, space),
                                offset_of(*other, space),
                            ),
                        ));
                    }
                    return true;
                }
                j = j + 1;
            }
            i = i + 1;
        }
        proof {
            reveal(tracks_overlap);
            assert forall|i: int, j: int|
                0 <= i < flat_hitboxes(self.view).len() && 0 <= j < flat_hitboxes(
                    other.view,
                ).len() implies !collision_spec(
                #[trigger] world_box_spec(
                    flat_hitboxes(self.view)[i],
                    heading_of(*self, space),
                    offset_of(*self, space),
                ),
                #[trigger] world_box_spec(
                    flat_hitboxes(other.view)[j],
                    heading_of(*other, space),
                    offset_of(*other, space),
                ),
            ) by {
                assert(!collision_spec(mine@[i], theirs@[j]));
            }
        }
        false
    }

    /// Whether any of this entity's world hit boxes overlaps the given box.
    pub fn collision_node(&self, space: u128, other: Rect) -> (r: bool)
        requires
            track_wf(*self),
            rect_ok(other),
        ensures
            r == track_hits_box(*self, space, other),
    {
        proof {
            reveal(track_hits_box);
        }
        let mine = self.hitbox_object(space);
        let n = mine.len();
        let mut i: usize = 0;
        while i < n
            invariant
                i <= n,
                n == mine@.len(),
                n == flat_hitboxes(self.view).len(),
                rect_ok(other),
                forall|a: int|
                    0 <= a < n ==> #[trigger] mine@[a] == world_box_spec(
                        flat_hitboxes(self.view)[a],
                        heading_of(*self, space),
                        offset_of(*self, space),
                    ),
                forall|a: int| 0 <= a < n ==> rect_ok(#[trigger] mine@[a]),
                forall|a: int| 0 <= a < i ==> !collision_spec(#[trigger] mine@[a], other),
            decreases n - i,
        {
            if mine[i].collision(&other) {
                proof {
                    reveal(track_hits_box);
                    assert(collision_spec(
                        world_box_spec(
                            flat_hitboxes(self.view)[i as int],
                            heading_of(*self, space),
                            offset_of(*self, space),
                        ),
                        other,
                    ));
                }
                return true;
            }
            i = i + 1;
        }
        proof {
            reveal(track_hits_box);
            assert forall|i: int| 0 <= i < flat_hitboxes(self.view).len() implies !collision_spec(
                #[trigger] world_box_spec(
                    flat_hitboxes(self.view)[i],
                    heading_of(*self, space),
                    offset_of(*self, space),
                ),
                other,
            ) by {
                assert(!collision_spec(mine@[i], other));
            }
        }
        false
    }
}

/// Union envelope of a list of well-bounded rectangles: an axis-aligned
/// rectangle spanning them all; the zero rectangle for an empty list.
#[verifier::rlimit(100)]
#[verifier::spinoff_prover]
fn union_envelope(world: &Vec<Rect>) -> (r: Rect)
    requires
        forall|j: int| 0 <= j < world@.len() ==> rect_ok(#[trigger] world@[j]),
        forall|j: int| 0 <= j < world@.len() ==> env_within(#[trigger] world@[j], 2 * POS_LIMIT),
    ensures
        rect_ok(r),
        bounded_by(r.position, 4 * POS_LIMIT),
        bounded_by(r.size, 4 * POS_LIMIT),
        rotor_is_zero(r.angle),
        r == envelope_of(world@),
        -(2 * POS_LIMIT) - 2 <= env_min_x(r) && env_max_x(r) <= 2 * POS_LIMIT + 2,
        -(2 * POS_LIMIT) - 2 <= env_min_y(r) && env_max_y(r) <= 2 * POS_LIMIT + 2,
        world@.len() > 0 ==> env_min_x(r) == union_min_x(world@) && env_min_y(r) == union_min_y(
            world@,
        ) && env_max_x(r) == union_max_x(world@) + (union_max_x(world@) - union_min_x(world@)) % 2
            && env_max_y(r) == union_max_y(world@) + (union_max_y(world@) - union_min_y(world@))
            % 2,
        forall|j: int|
            0 <= j < world@.len() ==> env_min_x(r) <= env_min_x(#[trigger] world@[j]) && env_max_x(
                world@[j],
            ) <= env_max_x(r) && env_min_y(r) <= env_min_y(world@[j]) && env_max_y(world@[j])
                <= env_max_y(r),
{
    let n = world.len();
    if n == 0 {
        let z = Rect::new(Vector(0, 0), Vector(0, 0));
        proof {
            crate::hitbox::lemma_zero_rect_corners(z);
        }
        return z;
    }
    let (m0, l0) = world[0].maxmin();
    let mut max = m0;
    let mut min = l0;
    let mut i: usize = 1;
    proof {
        assert(world@.subrange(0, 1).len() == 1);
        assert(world@.subrange(0, 1)[0] == world@[0]);
    }
    while i < n
        invariant
            1 <= i <= n,
            n == world@.len(),
            forall|j: int| 0 <= j < world@.len() ==> rect_ok(#[trigger] world@[j]),
            forall|j: int|
                0 <= j < world@.len() ==> env_within(#[trigger] world@[j], 2 * POS_LIMIT),
            max.0 == union_max_x(world@.subrange(0, i as int)),
            max.1 == union_max_y(world@.subrange(0, i as int)),
            min.0 == union_min_x(world@.subrange(0, i as int)),
            min.1 == union_min_y(world@.subrange(0, i as int)),
            bounded_by(max, 2 * POS_LIMIT),
            bounded_by(min, 2 * POS_LIMIT),
        decreases n - i,
    {
        let (bm, bl) = world[i].maxmin();
        max = max.max(bm);
        min = min.min(bl);
        proof {
            let pre = world@.subrange(0, i as int);
            let now = world@.subrange(0, (i + 1) as int);
            assert(now.drop_last() =~= pre);
            assert(now.last() == world@[i as int]);
            assert(now.len() > 1);
        }
        i = i + 1;
    }
    proof {
        assert(world@.subrange(0, n as int) =~= world@);
    }
    proof {
        lemma_union_env_bounds(world@, 0);
        assert(env_min_x(world@[0]) <= env_max_x(world@[0]));
        assert(env_min_y(world@[0]) <= env_max_y(world@[0]));
    }
    let sx = max.0 - min.0;
    let sy = max.1 - min.1;
    let ex = sx + sx % 2;
    let ey = sy + sy % 2;
    let center = Vector(min.0 + ex / 2, min.1 + ey / 2);
    let out = Rect::new(center, Vector(ex, ey));
    proof {
        assert(out == envelope_of(world@));
        lemma_envelope_contains(world@);
    }
    out
}

/// A well-formed track's position in any space stays inside the world bound.
pub proof fn lemma_offset_bounded(t: EnityTrack, space: u128)
    requires
        track_wf(t),
    ensures
        bounded_by(offset_of(t, space), POS_LIMIT as int),
{
    if has_space(t, space) {
        let i = space_index(t, space);
        assert(pos_wf(t.positions@[i].1));
    }
}

/// With unique keys, any index holding the key is the space index.
proof fn lemma_space_index_unique(t: EnityTrack, space: u128, i: int)
    requires
        0 <= i < t.positions@.len(),
        t.positions@[i].0 == space,
        forall|a: int, b: int|
            0 <= a < b < t.positions@.len() ==> (#[trigger] t.positions@[a]).0 != (
            #[trigger] t.positions@[b]).0,
    ensures
        has_space(t, space),
        space_index(t, space) == i,
{
    assert(has_space(t, space));
    let k = space_index(t, space);
    assert(0 <= k < t.positions@.len() && t.positions@[k].0 == space);
    if k != i {
        if k < i {
            assert(t.positions@[k].0 != t.positions@[i].0);
        } else {
            assert(t.positions@[i].0 != t.positions@[k].0);
        }
    }
}

/// Writing back one motion state under its own key keeps the track well
/// formed, and the written slot stays the space's index.
proof fn lemma_update_slot(mid: EnityTrack, after: EnityTrack, i: int, space: u128)
    requires
        track_wf(mid),
        0 <= i < mid.positions@.len(),
        mid.positions@[i].0 == space,
        after.base == mid.base,
        after.view == mid.view,
        after.positions@.len() == mid.positions@.len(),
        forall|j: int|
            0 <= j < mid.positions@.len() && j != i ==> after.positions@[j] == mid.positions@[j],
        after.positions@[i].0 == space,
        pos_wf(after.positions@[i].1),
    ensures
        track_wf(after),
        has_space(after, space),
        space_index(after, space) == i,
        forall|s2: u128|
            s2 != space ==> (#[trigger] has_space(after, s2)) == has_space(mid, s2),
        forall|s2: u128|
            s2 != space ==> #[trigger] main_of(after, s2) == main_of(mid, s2) && offset_of(
                after,
                s2,
            ) == offset_of(mid, s2) && heading_of(after, s2) == heading_of(mid, s2) && drifts_of(
                after,
                s2,
            ) == drifts_of(mid, s2),
{
    assert forall|a: int, b: int| 0 <= a < b < after.positions@.len() implies (
    #[trigger] after.positions@[a]).0 != (#[trigger] after.positions@[b]).0 by {
        if a == i {
            assert(after.positions@[a].0 == mid.positions@[a].0);
            assert(after.positions@[b] == mid.positions@[b]);
        } else if b == i {
            assert(after.positions@[b].0 == mid.positions@[b].0);
            assert(after.positions@[a] == mid.positions@[a]);
        } else {
            assert(after.positions@[a] == mid.positions@[a]);
            assert(after.positions@[b] == mid.positions@[b]);
        }
    }
    assert forall|j: int| 0 <= j < after.positions@.len() implies pos_wf(
        (#[trigger] after.positions@[j]).1,
    ) by {
        if j != i {
            assert(after.positions@[j] == mid.positions@[j]);
        }
    }
    lemma_space_index_unique(after, space, i);
}

/// After appending a fresh motion state for one space, every other space
/// reads exactly as before.
proof fn lemma_frame_after_append(before: EnityTrack, after: EnityTrack, idx: int, space: u128)
    requires
        track_wf(before),
        fresh_slot_appended(before, after, idx, space),
        forall|a: int, b: int|
            0 <= a < b < after.positions@.len() ==> (#[trigger] after.positions@[a]).0 != (
            #[trigger] after.positions@[b]).0,
    ensures
        forall|s2: u128|
            s2 != space ==> (#[trigger] has_space(after, s2)) == has_space(before, s2),
        forall|s2: u128|
            s2 != space ==> #[trigger] main_of(after, s2) == main_of(before, s2) && offset_of(
                after,
                s2,
            ) == offset_of(before, s2) && heading_of(after, s2) == heading_of(before, s2)
                && drifts_of(after, s2) == drifts_of(before, s2),
{
    assert forall|s2: u128| s2 != space implies (#[trigger] has_space(after, s2)) == has_space(
        before,
        s2,
    ) by {
        if has_space(before, s2) {
            let k = choose|k: int|
                0 <= k < before.positions@.len() && (#[trigger] before.positions@[k]).0 == s2;
            assert(after.positions@[k].0 == s2);
        }
        if has_space(after, s2) {
            let k = choose|k: int|
                0 <= k < after.positions@.len() && (#[trigger] after.positions@[k]).0 == s2;
            assert(k != idx);
            assert(before.positions@[k].0 == s2);
        }
    }
    assert forall|s2: u128| s2 != space implies #[trigger] main_of(after, s2) == main_of(
        before,
        s2,
    ) && offset_of(after, s2) == offset_of(before, s2) && heading_of(after, s2) == heading_of(
        before,
        s2,
    ) && drifts_of(after, s2) == drifts_of(before, s2) by {
        if has_space(before, s2) {
            let k = choose|k: int|
                0 <= k < before.positions@.len() && (#[trigger] before.positions@[k]).0 == s2;
            assert(after.positions@[k].0 == s2);
            lemma_space_index_unique(after, s2, k);
            lemma_space_index_unique(before, s2, k);
        }
    }
}

} // verus!
