//! The scene: an arena of entity records, a live set in insertion order, the
//! uniform spatial index, and the per-tick orchestrator that rebuilds the
//! index, resolves collisions with positional nudges, and integrates motion,
//! in that order.

use vstd::prelude::*;
use crate::num::{DELTA_LIMIT, POS_LIMIT};
use crate::ordered::{live_model, LiveSet};
use crate::position::{main_evolves, new_pos_from, qview, queue_after, MoveEvent};
use crate::rect::{rect_ok, Rect};
use crate::render::{RenderFrame, Texture, ViewPort};
use crate::rotation::rotor_is_zero;
use crate::simple_grid::{grid_model, track_covers, SimpleGrid};
use crate::track::{
    drifts_of, heading_of, main_of, offset_of, track_hits_box, track_wf, tracks_overlap,
    EnityTrack,
};
use crate::vector::{bounded_by, by_length_pair, Vector};

verus! {

/// The UI overlay: its own space identifier and its own arena of records.
pub struct UIs {
    pub uuid: u128,
    pub entities: Vec<EnityTrack>,
}

impl UIs {
    /// An empty overlay with a fresh space identifier.
    pub fn new() -> (r: UIs)
        ensures
            r.entities@.len() == 0,
    {
        UIs { uuid: crate::ids::new_uuid(), entities: Vec::new() }
    }

    /// Adopt a record into the overlay, assigning its identifier.
    pub fn insert(&mut self, enity: EnityTrack) -> (r: u64)
        requires
            track_wf(enity),
            old(self).entities@.len() < 0xFFFF_FFFF_FFFF_FFFF,
        ensures
            final(self).entities@.len() == old(self).entities@.len() + 1,
            r == old(self).entities@.len(),
            final(self).uuid == old(self).uuid,
            forall|i: int|
                0 <= i < old(self).entities@.len() ==> #[trigger] final(self).entities@[i] == old(
                    self,
                ).entities@[i],
            final(self).entities@[r as int].base == enity.base,
            final(self).entities@[r as int].view == enity.view,
            final(self).entities@[r as int].positions == enity.positions,
            final(self).entities@[r as int].uuid == r,
    {
        let id = self.entities.len() as u64;
        let mut t = enity;
        t.uuid = id;
        self.entities.push(t);
        id
    }

    /// Drop a record from the overlay by swapping the last into its place.
    pub fn remove(&mut self, uuid: u64)
        ensures
            final(self).uuid == old(self).uuid,
            (uuid as int) < old(self).entities@.len() ==> final(self).entities@ == old(
                self,
            ).entities@.update(uuid as int, old(self).entities@.last()).drop_last(),
            (uuid as int) >= old(self).entities@.len() ==> final(self).entities == old(
                self,
            ).entities,
    {
        if uuid < self.entities.len() as u64 {
            self.entities.swap_remove(uuid as usize);
        }
    }

    /// A record by identifier.
    pub fn get(&self, uuid: u64) -> (r: Option<&EnityTrack>)
        ensures
            r matches Some(t) ==> (uuid as int) < self.entities@.len() && t == self.entities@[uuid as int],
            r matches None ==> (uuid as int) >= self.entities@.len(),
    {
        if uuid < self.entities.len() as u64 {
            Some(&self.entities[uuid as usize])
        } else {
            None
        }
    }

    /// Append every overlay record's world boxes to the frame, in order.
    pub fn render(&self, frame: &mut RenderFrame)
        requires
            forall|i: int| 0 <= i < self.entities@.len() ==> track_wf(#[trigger] self.entities@[i]),
        ensures
            final(frame).entities()@ == old(frame).entities()@ + frames_upto(
                self.entities@,
                self.uuid,
                self.entities@.len() as int,
            ),
            final(frame).ui_boxes() == old(frame).ui_boxes(),
            final(frame).viewport_spec() == old(frame).viewport_spec(),
    {
        let n = self.entities.len();
        let mut i: usize = 0;
        while i < n
            invariant
                i <= n,
                n == self.entities@.len(),
                forall|j: int|
                    0 <= j < self.entities@.len() ==> track_wf(#[trigger] self.entities@[j]),
                frame.entities()@ == old(frame).entities()@ + frames_upto(
                    self.entities@,
                    self.uuid,
                    i as int,
                ),
                frame.ui_boxes() == old(frame).ui_boxes(),
                frame.viewport_spec() == old(frame).viewport_spec(),
            decreases n - i,
        {
            let boxes = self.entities[i].viewbox_object(self.uuid);
            frame.append(&boxes);
            proof {
                assert(frame.entities()@ =~= old(frame).entities()@ + frames_upto(
                    self.entities@,
                    self.uuid,
                    (i + 1) as int,
                ));
            }
            i = i + 1;
        }
    }
}

/// Well-formedness of a scene: every record well formed and numbered by its
/// slot, and the live set holding valid, distinct identifiers.
pub open spec fn scene_wf(s: NormalScene) -> bool {
    &&& forall|i: int| 0 <= i < s.entities@.len() ==> track_wf(#[trigger] s.entities@[i])
    &&& forall|i: int|
        0 <= i < s.entities@.len() ==> (#[trigger] s.entities@[i]).uuid == i
    &&& forall|k: int|
        0 <= k < live_model(&s.live).len() ==> (#[trigger] live_model(&s.live)[k] as int)
            < s.entities@.len()
    &&& forall|a: int, b: int|
        0 <= a < b < live_model(&s.live).len() ==> live_model(&s.live)[a] != live_model(
            &s.live,
        )[b]
}

/// Zero-duration nudges of the fixed resolution magnitude.
pub open spec fn nudges_ok(nds: Seq<Vector>) -> bool {
    forall|k: int| 0 <= k < nds.len() ==> bounded_by(#[trigger] nds[k], 2)
}

/// Nudges as zero-duration drift-queue entries, in ghost form.
pub open spec fn nudge_view(nds: Seq<Vector>) -> Seq<((int, int), int)> {
    Seq::new(nds.len(), |i: int| (((nds[i].0 as int, nds[i].1 as int)), 0int))
}

/// The positional correction pushing an entity at `self_pos` away from an
/// overlapping other at `other_pos`: the direction from other to self, scaled
/// to the fixed magnitude of two units.
#[verifier::opaque]
pub open spec fn nudge_of(self_pos: Vector, other_pos: Vector) -> (int, int) {
    by_length_pair(self_pos.0 - other_pos.0, self_pos.1 - other_pos.1, 2)
}

/// A collision-resolution candidate: a distinct live-indexed entity sharing a
/// grid cell with the envelope of `enity`, on the same nonzero collision
/// layer, whose world hit boxes truly overlap.
pub open spec fn resolve_candidate(
    tracks: Seq<EnityTrack>,
    grid: Map<(int, int), Seq<u64>>,
    space: u128,
    enity: u64,
    c: u64,
) -> bool {
    &&& (c as int) < tracks.len()
    &&& c != enity
    &&& exists|cell: (int, int)|
        track_covers(tracks[enity as int], space, cell) && (#[trigger] grid[cell]).contains(c)
    &&& tracks_overlap(tracks[enity as int], tracks[c as int], space)
    &&& tracks[c as int].base.collision_spec() == tracks[enity as int].base.collision_spec()
    &&& tracks[enity as int].base.collision_spec() != 0
}

/// One tick's effect on one live entity: identity and view untouched, the
/// heading kept, some zero-duration nudges appended, the intent consumed as
/// integration prescribes, and the position advanced by the primary intent
/// and the (possibly suppressed) drift queue.
pub open spec fn step_ok(
    before: EnityTrack,
    after: EnityTrack,
    space: u128,
    fp: Option<Vector>,
    nds: Seq<Vector>,
    delta: int,
) -> bool {
    &&& after.uuid == before.uuid
    &&& after.base == before.base
    &&& after.view == before.view
    &&& nudges_ok(nds)
    &&& main_evolves(main_of(before, space), delta, main_of(after, space))
    &&& heading_of(after, space) == heading_of(before, space)
    &&& (offset_of(after, space).0 as int, offset_of(after, space).1 as int) == new_pos_from(
        main_of(before, space),
        offset_of(before, space),
        drifts_of(before, space) + nudge_view(nds),
        fp,
        before.base.speed_spec() as int,
        delta,
    )
    &&& drifts_of(after, space) == queue_after(drifts_of(before, space) + nudge_view(nds), delta)
}

/// What a `Following` intent resolved to this tick: nothing exactly when the
/// reference is null, dangling, or names a destroyed entity; any other intent
/// resolves to nothing.
pub open spec fn fp_ok(ents: Seq<EnityTrack>, space: u128, id: u64, fp: Option<Vector>) -> bool {
    match main_of(ents[id as int], space) {
        MoveEvent::Following(w) => match w.id {
            Option::None => fp matches Option::None,
            Option::Some(tid) => {
                if (tid as int) >= ents.len() || ents[tid as int].base.destroyed() {
                    fp matches Option::None
                } else {
                    fp matches Option::Some(_)
                }
            },
        },
        _ => fp matches Option::None,
    }
}

/// The grid's buckets hold exactly the live entities, in every cell each
/// one's hit envelope overlaps.
pub open spec fn grid_matches(
    g: Map<(int, int), Seq<u64>>,
    live: Seq<u64>,
    ents: Seq<EnityTrack>,
    space: u128,
) -> bool {
    forall|cell: (int, int), d: u64|
        #[trigger] g[cell].contains(d) <==> (live.contains(d) && (d as int) < ents.len()
            && track_covers(ents[d as int], space, cell))
}

/// Some integration step happened for this entity: a followed position
/// consistent with `fp_ok` and some sound set of nudges drove one tick.
pub open spec fn some_step_ok(
    ents: Seq<EnityTrack>,
    cur: Seq<EnityTrack>,
    g: Map<(int, int), Seq<u64>>,
    space: u128,
    id: u64,
    delta: int,
) -> bool {
    exists|fp: Option<Vector>, nds: Seq<Vector>|
        step_ok(ents[id as int], cur[id as int], space, fp, nds, delta) && fp_ok(
            ents,
            space,
            id,
            fp,
        ) && nudges_sound(nds, ents, g, space, id) && nudges_complete(
            nds,
            all_ids(ents.len() as int),
            ents,
            g,
            space,
            id,
        ) && (nds.len() == 0 <==> !(exists|c: u64| resolve_candidate(ents, g, space, id, c)))
}

/// The world view boxes of the first `upto` records, concatenated in order.
pub open spec fn frames_upto(ents: Seq<EnityTrack>, space: u128, upto: int) -> Seq<(Rect, Texture)>
    decreases upto,
{
    if upto <= 0 {
        Seq::empty()
    } else {
        frames_upto(ents, space, upto - 1) + crate::track::world_view_pairs(
            ents[upto - 1],
            space,
        )
    }
}

/// The world view boxes of the records at the first `upto` identifiers,
/// concatenated in order.
pub open spec fn frames_of_ids(
    ids: Seq<u64>,
    ents: Seq<EnityTrack>,
    space: u128,
    upto: int,
) -> Seq<(Rect, Texture)>
    decreases upto,
{
    if upto <= 0 {
        Seq::empty()
    } else {
        frames_of_ids(ids, ents, space, upto - 1) + crate::track::world_view_pairs(
            ents[ids[upto - 1] as int],
            space,
        )
    }
}

/// The background box of a scene: a rectangle of the scene's size at the
/// origin, carrying the background texture.
pub open spec fn background_pair(s: NormalScene) -> (Rect, Texture) {
    (
        Rect {
            position: Vector(0i64, 0i64),
            size: s.size,
            angle: crate::rotation::Rotor { c: crate::num::ROT_ONE, s: 0 },
        },
        s.background,
    )
}

/// The zero-size rectangle standing for a single point.
pub open spec fn point_rect(point: Vector) -> Rect {
    Rect {
        position: point,
        size: Vector(0i64, 0i64),
        angle: crate::rotation::Rotor { c: crate::num::ROT_ONE, s: 0 },
    }
}

/// The resolve pass's effect on one entity: everything kept except the
/// queued zero-duration nudges appended to its drift queue.
pub open spec fn resolved_ok(
    before: EnityTrack,
    after: EnityTrack,
    space: u128,
    nds: Seq<Vector>,
) -> bool {
    &&& after.uuid == before.uuid
    &&& after.base == before.base
    &&& after.view == before.view
    &&& main_of(after, space) == main_of(before, space)
    &&& heading_of(after, space) == heading_of(before, space)
    &&& offset_of(after, space) == offset_of(before, space)
    &&& drifts_of(after, space) == drifts_of(before, space) + nudge_view(nds)
}

/// The basic scene: entities, a live set, a spatial index, and a viewport.
pub struct NormalScene {
    pub uuid: u128,
    pub entities: Vec<EnityTrack>,
    pub live: LiveSet,
    pub grid: SimpleGrid,
    pub background: Texture,
    pub viewport: ViewPort,
    pub size: Vector,
    pub ui: UIs,
}

impl NormalScene {
    /// A fresh scene of the given size, with a fresh space identifier.
    pub fn new(size: Vector) -> (r: NormalScene)
        ensures
            scene_wf(r),
            r.entities@.len() == 0,
            live_model(&r.live).len() == 0,
            r.size == size,
            forall|c: (int, int)| #[trigger] grid_model(&r.grid)[c] == Seq::<u64>::empty(),
    {
        NormalScene {
            background: Texture::default(),
            viewport: ViewPort::new(),
            entities: Vec::new(),
            uuid: crate::ids::new_uuid(),
            live: LiveSet::new(),
            grid: SimpleGrid::new(),
            ui: UIs::new(),
            size,
        }
    }

    /// The scene's space identifier.
    pub fn uuid(&self) -> (r: u128)
        ensures
            r == self.uuid,
    {
        self.uuid
    }

    /// Adopt an entity record: assign it the next identifier, add it to the
    /// arena, and put it in the live set.
    pub fn insert(&mut self, enity: EnityTrack) -> (r: u64)
        requires
            scene_wf(*old(self)),
            track_wf(enity),
            old(self).entities@.len() < 0xFFFF_FFFF_FFFF_FFFF,
        ensures
            scene_wf(*final(self)),
            r == old(self).entities@.len(),
            final(self).entities@.len() == old(self).entities@.len() + 1,
            forall|i: int|
                0 <= i < old(self).entities@.len() ==> #[trigger] final(self).entities@[i] == old(
                    self,
                ).entities@[i],
            final(self).entities@[r as int].base == enity.base,
            final(self).entities@[r as int].view == enity.view,
            final(self).entities@[r as int].positions == enity.positions,
            live_model(&final(self).live) == live_model(&old(self).live).push(r),
            final(self).uuid == old(self).uuid,
            final(self).grid == old(self).grid,
    {
        let id = self.entities.len() as u64;
        let mut t = enity;
        t.uuid = id;
        self.entities.push(t);
        let ghost live0 = live_model(&self.live);
        proof {
            if live_model(&self.live).contains(id) {
                let k = choose|k: int|
                    0 <= k < live_model(&self.live).len() && live_model(&self.live)[k] == id;
            }
        }
        let fresh = self.live.insert(id);
        proof {
            assert(fresh);
            assert forall|a: int, b: int|
                0 <= a < b < live_model(&self.live).len() implies live_model(&self.live)[a]
                != live_model(&self.live)[b] by {
                if b < live0.len() {
                } else {
                    assert(live_model(&self.live)[b] == id);
                    assert(live_model(&self.live)[a] == live0[a]);
                }
            }
        }
        id
    }

    /// A record by identifier; destroyed records remain reachable here.
    pub fn get(&self, uuid: u64) -> (r: Option<&EnityTrack>)
        ensures
            r matches Some(t) ==> (uuid as int) < self.entities@.len() && t
                == self.entities@[uuid as int],
            r matches None ==> (uuid as int) >= self.entities@.len(),
    {
        if uuid < self.entities.len() as u64 {
            Some(&self.entities[uuid as usize])
        } else {
            None
        }
    }

    /// Take an entity out of the live set; its record stays in the arena.
    pub fn remove(&mut self, uuid: u64)
        requires
            scene_wf(*old(self)),
        ensures
            scene_wf(*final(self)),
            final(self).entities == old(self).entities,
            final(self).uuid == old(self).uuid,
            forall|id: u64|
                live_model(&final(self).live).contains(id) <==> (live_model(
                    &old(self).live,
                ).contains(id) && id != uuid),
    {
        let ghost live0 = live_model(&self.live);
        let present = self.live.swap_remove(uuid);
        proof {
            if present {
                let i = choose|i: int|
                    0 <= i < live0.len() && live0[i] == uuid && live_model(&self.live) == live0.update(
                        i,
                        live0.last(),
                    ).drop_last();
                lemma_swap_removed(live0, live_model(&self.live), i, uuid);
            }
        }
    }

    /// Adopt a UI record into the overlay.
    pub fn insert_ui(&mut self, enity: EnityTrack) -> (r: u64)
        requires
            track_wf(enity),
            old(self).ui.entities@.len() < 0xFFFF_FFFF_FFFF_FFFF,
        ensures
            final(self).ui.entities@.len() == old(self).ui.entities@.len() + 1,
            final(self).entities == old(self).entities,
            final(self).uuid == old(self).uuid,
    {
        self.ui.insert(enity)
    }

    /// A UI record by identifier.
    pub fn get_ui(&self, uuid: u64) -> (r: Option<&EnityTrack>)
        ensures
            r matches Some(t) ==> (uuid as int) < self.ui.entities@.len() && t
                == self.ui.entities@[uuid as int],
            r matches None ==> (uuid as int) >= self.ui.entities@.len(),
    {
        self.ui.get(uuid)
    }

    /// Drop a UI record.
    pub fn remove_ui(&mut self, uuid: u64)
        ensures
            final(self).entities == old(self).entities,
            final(self).uuid == old(self).uuid,
    {
        self.ui.remove(uuid);
    }

    /// The spatial index.
    pub fn grid(&self) -> (r: &SimpleGrid)
        ensures
            r == self.grid,
    {
        &self.grid
    }

    /// The background texture.
    pub fn background(&self) -> (r: Texture)
        ensures
            r == self.background,
    {
        self.background.clone()
    }

    /// Replace the background texture, returning the old one.
    pub fn set_background(&mut self, texture: Texture) -> (r: Texture)
        ensures
            r == old(self).background,
            final(self).background == texture,
            final(self).entities == old(self).entities,
            final(self).uuid == old(self).uuid,
    {
        let mut t = texture;
        core::mem::swap(&mut self.background, &mut t);
        t
    }

    /// Replace the viewport, returning the old one.
    pub fn replace_viewport(&mut self, viewport: ViewPort) -> (r: ViewPort)
        ensures
            r == old(self).viewport,
            final(self).viewport == viewport,
            final(self).entities == old(self).entities,
            final(self).uuid == old(self).uuid,
    {
        let mut v = viewport;
        core::mem::swap(&mut self.viewport, &mut v);
        v
    }

    /// The viewport.
    pub fn viewport(&self) -> (r: &ViewPort)
        ensures
            r == self.viewport,
    {
        &self.viewport
    }

    /// Narrow-phase-verified broad-phase candidates for an entity.
    pub fn collision(&self, enity: u64) -> (r: Vec<u64>)
        requires
            scene_wf(*self),
            (enity as int) < self.entities@.len(),
        ensures
            forall|c: u64|
                r@.contains(c) <==> ((c as int) < self.entities@.len() && c != enity && (exists|
                    cell: (int, int),
                |
                    track_covers(self.entities@[enity as int], self.uuid, cell)
                        && #[trigger] grid_model(&self.grid)[cell].contains(c)) && tracks_overlap(
                    self.entities@[enity as int],
                    self.entities@[c as int],
                    self.uuid,
                )),
    {
        self.grid.collision(&self.entities, self.uuid, enity)
    }

    /// Narrow-phase-verified broad-phase candidates for a rectangle.
    pub fn collision_by_rect(&self, rect: Rect) -> (r: Vec<u64>)
        requires
            scene_wf(*self),
            rect_ok(rect),
        ensures
            forall|c: u64|
                r@.contains(c) <==> ((c as int) < self.entities@.len() && (exists|cell: (int, int)|
                    crate::simple_grid::rect_covers(rect, cell) && #[trigger] grid_model(
                        &self.grid,
                    )[cell].contains(c)) && track_hits_box(
                    self.entities@[c as int],
                    self.uuid,
                    rect,
                )),
            forall|i: int, j: int| 0 <= i < j < r@.len() ==> r@[i] != r@[j],
    {
        self.grid.collision_by_rect(&self.entities, self.uuid, rect)
    }

    /// Candidates for a single point: a zero-size rectangle query.
    pub fn collision_by_point(&self, point: Vector) -> (r: Vec<u64>)
        requires
            scene_wf(*self),
            bounded_by(point, crate::num::RECT_LIMIT as int),
        ensures
            forall|c: u64|
                r@.contains(c) <==> ((c as int) < self.entities@.len() && (exists|cell: (int, int)|
                    crate::simple_grid::rect_covers(point_rect(point), cell)
                        && #[trigger] grid_model(&self.grid)[cell].contains(c)) && track_hits_box(
                    self.entities@[c as int],
                    self.uuid,
                    point_rect(point),
                )),
            forall|i: int, j: int| 0 <= i < j < r@.len() ==> r@[i] != r@[j],
    {
        self.collision_by_rect(Rect::new(point, Vector(0, 0)))
    }

    /// One tick: rebuild the index from the surviving entities, resolve
    /// collisions by queueing positional nudges, then integrate every live
    /// entity's motion, in that order. Destroyed entities leave the live set
    /// and the index but stay in the arena untouched.
    #[verifier::rlimit(100)]
    pub fn update(&mut self, delta: u64)
        requires
            scene_wf(*old(self)),
            delta <= DELTA_LIMIT,
        ensures
            scene_wf(*final(self)),
            final(self).uuid == old(self).uuid,
            final(self).background == old(self).background,
            final(self).viewport == old(self).viewport,
            final(self).size == old(self).size,
            final(self).entities@.len() == old(self).entities@.len(),
            forall|i: int|
                0 <= i < old(self).entities@.len() ==> (#[trigger] final(self).entities@[i]).base
                    == old(self).entities@[i].base && final(self).entities@[i].view == old(
                    self,
                ).entities@[i].view && final(self).entities@[i].uuid == old(
                    self,
                ).entities@[i].uuid,
            live_model(&final(self).live) == surviving(
                live_model(&old(self).live),
                old(self).entities@,
            ),
            forall|id: u64|
                #[trigger] live_model(&final(self).live).contains(id) <==> (live_model(
                    &old(self).live,
                ).contains(id) && (id as int) < old(self).entities@.len() && !old(
                    self,
                ).entities@[id as int].base.destroyed()),
            forall|id: u64|
                ((id as int) < old(self).entities@.len() && !live_model(
                    &final(self).live,
                ).contains(id)) ==> #[trigger] final(self).entities@[id as int] == old(
                    self,
                ).entities@[id as int],
            grid_matches(
                grid_model(&final(self).grid),
                live_model(&final(self).live),
                old(self).entities@,
                old(self).uuid,
            ),
            forall|id: u64|
                #[trigger] live_model(&final(self).live).contains(id) ==> some_step_ok(
                    old(self).entities@,
                    final(self).entities@,
                    grid_model(&final(self).grid),
                    old(self).uuid,
                    id,
                    delta as int,
                ),
    {
        let space = self.uuid;
        let ghost ents = self.entities@;
        let ghost l0 = live_model(&old(self).live);
        let ecount = self.entities.len();
        proof {
            assert(ents.len() == ecount);
        }
        let old_ids = self.live.ids();
        self.live.clear();
        self.grid.clear();
        let n = old_ids.len();
        let mut i: usize = 0;
        while i < n
            invariant
                self.entities@ == ents,
                self.uuid == space,
                self.background == old(self).background,
                self.viewport == old(self).viewport,
                self.size == old(self).size,
                self.ui == old(self).ui,
                ents.len() <= usize::MAX,
                forall|ii: int| 0 <= ii < ents.len() ==> track_wf(#[trigger] ents[ii]),
                forall|ii: int| 0 <= ii < ents.len() ==> (#[trigger] ents[ii]).uuid == ii,
                old_ids@ == l0,
                forall|kk: int| 0 <= kk < l0.len() ==> (#[trigger] l0[kk] as int) < ents.len(),
                forall|a: int, b: int| 0 <= a < b < l0.len() ==> l0[a] != l0[b],
                i <= n,
                n == l0.len(),
                live_model(&self.live) == surviving(l0.subrange(0, i as int), ents),
                forall|id: u64|
                    #[trigger] live_model(&self.live).contains(id) <==> (exists|j: int|
                        0 <= j < i && l0[j] == id) && (id as int) < ents.len() && !ents[id as int].base.destroyed(),
                forall|a: int, b: int|
                    0 <= a < b < live_model(&self.live).len() ==> live_model(&self.live)[a]
                        != live_model(&self.live)[b],
                grid_matches(grid_model(&self.grid), live_model(&self.live), ents, space),
            decreases n - i,
        {
            let id = old_ids[i];
            proof {
                assert(l0[i as int] == id);
                assert((id as int) < ents.len());
                assert((id as usize) as int == id as int);
                assert(l0.subrange(0, (i + 1) as int).drop_last() =~= l0.subrange(0, i as int));
                assert(l0.subrange(0, (i + 1) as int).last() == id);
            }
            let ghost live0 = live_model(&self.live);
            let ghost g0 = grid_model(&self.grid);
            if !self.entities[id as usize].base().is_destroy() {
                let added = self.live.insert(id);
                proof {
                    if !added {
                        assert(live0.contains(id));
                        let j = choose|j: int| 0 <= j < i && l0[j] == id;
                        assert(l0[j] == l0[i as int]);
                        assert(false);
                    }
                    assert(live_model(&self.live) == live0.push(id));
                    assert forall|d: u64|
                        #[trigger] live_model(&self.live).contains(d) implies ((exists|j: int|
                        0 <= j < i + 1 && l0[j] == d) && (d as int) < ents.len() && !ents[d as int].base.destroyed()) by {
                        let kk = choose|kk: int|
                            0 <= kk < live_model(&self.live).len() && live_model(&self.live)[kk]
                                == d;
                        if kk < live0.len() {
                            assert(live0[kk] == d);
                            assert(live0.contains(d));
                        } else {
                            assert(d == id);
                            assert(l0[i as int] == d);
                        }
                    }
                    assert forall|d: u64|
                        ((exists|j: int| 0 <= j < i + 1 && l0[j] == d) && (d as int) < ents.len()
                            && !ents[d as int].base.destroyed()) implies #[trigger] live_model(
                        &self.live,
                    ).contains(d) by {
                        let j = choose|j: int| 0 <= j < i + 1 && l0[j] == d;
                        if j < i {
                            assert(live0.contains(d));
                            let kk = choose|kk: int|
                                0 <= kk < live0.len() && live0[kk] == d;
                            assert(live_model(&self.live)[kk] == d);
                        } else {
                            assert(d == id);
                            assert(live_model(&self.live)[live0.len() as int] == d);
                        }
                    }
                    assert forall|a: int, b: int|
                        0 <= a < b < live_model(&self.live).len() implies live_model(
                        &self.live,
                    )[a] != live_model(&self.live)[b] by {
                        if b == live0.len() {
                            assert(live_model(&self.live)[a] == live0[a]);
                            assert(live_model(&self.live)[b] == id);
                            if live0[a] == id {
                                assert(live0.contains(id));
                            }
                        } else {
                            assert(live_model(&self.live)[a] == live0[a]);
                            assert(live_model(&self.live)[b] == live0[b]);
                        }
                    }
                }
                self.grid.insert(&self.entities, space, id);
                proof {
                    assert forall|cell: (int, int), d: u64|
                        #[trigger] grid_model(&self.grid)[cell].contains(d) implies (live_model(
                        &self.live,
                    ).contains(d) && (d as int) < ents.len() && track_covers(
                        ents[d as int],
                        space,
                        cell,
                    )) by {
                        if track_covers(ents[id as int], space, cell) {
                            assert(grid_model(&self.grid)[cell] == g0[cell].push(id));
                            let kk = choose|kk: int|
                                0 <= kk < grid_model(&self.grid)[cell].len() && grid_model(
                                    &self.grid,
                                )[cell][kk] == d;
                            if kk < g0[cell].len() {
                                assert(g0[cell][kk] == d);
                                assert(g0[cell].contains(d));
                                assert(live0.contains(d));
                            } else {
                                assert(d == id);
                            }
                        } else {
                            assert(grid_model(&self.grid)[cell] == g0[cell]);
                            assert(live0.contains(d));
                        }
                        assert(live_model(&self.live).contains(d));
                    }
                    assert forall|cell: (int, int), d: u64|
                        (live_model(&self.live).contains(d) && (d as int) < ents.len()
                            && track_covers(ents[d as int], space, cell)) implies #[trigger] grid_model(
                        &self.grid,
                    )[cell].contains(d) by {
                        if d == id {
                            assert(grid_model(&self.grid)[cell] == g0[cell].push(id));
                            assert(grid_model(&self.grid)[cell][g0[cell].len() as int] == d);
                        } else {
                            assert(live0.contains(d));
                            assert(g0[cell].contains(d));
                            let kk = choose|kk: int|
                                0 <= kk < g0[cell].len() && g0[cell][kk] == d;
                            if track_covers(ents[id as int], space, cell) {
                                assert(grid_model(&self.grid)[cell] == g0[cell].push(id));
                                assert(grid_model(&self.grid)[cell][kk] == d);
                            } else {
                                assert(grid_model(&self.grid)[cell] == g0[cell]);
                            }
                        }
                    }
                }
            } else {
                proof {
                    assert forall|d: u64|
                        #[trigger] live_model(&self.live).contains(d) implies ((exists|j: int|
                        0 <= j < i + 1 && l0[j] == d) && (d as int) < ents.len() && !ents[d as int].base.destroyed()) by {
                        let j = choose|j: int| 0 <= j < i && l0[j] == d;
                    }
                    assert forall|d: u64|
                        ((exists|j: int| 0 <= j < i + 1 && l0[j] == d) && (d as int) < ents.len()
                            && !ents[d as int].base.destroyed()) implies #[trigger] live_model(
                        &self.live,
                    ).contains(d) by {
                        let j = choose|j: int| 0 <= j < i + 1 && l0[j] == d;
                        if j == i {
                            assert(d == id);
                            assert(ents[d as int].base.destroyed());
                        }
                    }
                }
            }
            i = i + 1;
        }
        proof {
            assert(l0.subrange(0, n as int) =~= l0);
            assert(live_model(&self.live) == surviving(l0, ents));
            assert forall|id: u64|
                #[trigger] live_model(&self.live).contains(id) implies (l0.contains(id) && (
            id as int) < ents.len() && !ents[id as int].base.destroyed()) by {
                let j = choose|j: int| 0 <= j < n && l0[j] == id;
            }
            assert forall|id: u64|
                (l0.contains(id) && (id as int) < ents.len() && !ents[id as int].base.destroyed())
                    implies #[trigger] live_model(&self.live).contains(id) by {
                let j = choose|j: int| 0 <= j < l0.len() && l0[j] == id;
            }
        }
        let ghost l1 = live_model(&self.live);
        let ghost g1 = grid_model(&self.grid);
        proof {
            assert forall|kk: int| 0 <= kk < l1.len() implies (#[trigger] l1[kk] as int)
                < ents.len() by {
                assert(l1.contains(l1[kk]));
            }
        }
        let ids = self.live.ids();
        let m = ids.len();
        let mut all: Vec<Vec<Vector>> = Vec::new();
        let mut j: usize = 0;
        while j < m
            invariant
                self.entities@ == ents,
                self.uuid == space,
                ents.len() <= usize::MAX,
                forall|ii: int| 0 <= ii < ents.len() ==> track_wf(#[trigger] ents[ii]),
                ids@ == l1,
                live_model(&self.live) == l1,
                grid_model(&self.grid) == g1,
                forall|kk: int| 0 <= kk < l1.len() ==> (#[trigger] l1[kk] as int) < ents.len(),
                j <= m,
                m == l1.len(),
                all@.len() == j,
                forall|jj: int|
                    0 <= jj < j ==> nudges_sound(
                        (#[trigger] all@[jj])@,
                        ents,
                        g1,
                        space,
                        l1[jj],
                    ),
                forall|jj: int|
                    0 <= jj < j ==> nudges_complete(
                        (#[trigger] all@[jj])@,
                        all_ids(ents.len() as int),
                        ents,
                        g1,
                        space,
                        l1[jj],
                    ),
                forall|jj: int|
                    0 <= jj < j ==> ((#[trigger] all@[jj])@.len() == 0 <==> !(exists|c: u64|
                        resolve_candidate(ents, g1, space, l1[jj], c))),
                forall|jj: int, kk: int|
                    0 <= jj < j && 0 <= kk < (#[trigger] all@[jj])@.len() ==> bounded_by(
                        #[trigger] all@[jj]@[kk],
                        2,
                    ),
            decreases m - j,
        {
            let id = ids[j];
            proof {
                assert(l1[j as int] == id);
            }
            let nds = calc_collision(&self.entities, &self.grid, space, id);
            all.push(nds);
            j = j + 1;
        }
        let mut j2: usize = 0;
        while j2 < m
            invariant
                self.uuid == space,
                self.background == old(self).background,
                self.viewport == old(self).viewport,
                self.size == old(self).size,
                self.ui == old(self).ui,
                self.entities@.len() == ents.len(),
                ents.len() <= usize::MAX,
                forall|ii: int| 0 <= ii < ents.len() ==> track_wf(#[trigger] self.entities@[ii]),
                forall|ii: int|
                    0 <= ii < ents.len() ==> (#[trigger] self.entities@[ii]).uuid == ents[ii].uuid
                        && self.entities@[ii].base == ents[ii].base && self.entities@[ii].view
                        == ents[ii].view,
                ids@ == l1,
                live_model(&self.live) == l1,
                grid_model(&self.grid) == g1,
                forall|kk: int| 0 <= kk < l1.len() ==> (#[trigger] l1[kk] as int) < ents.len(),
                forall|a: int, b: int| 0 <= a < b < l1.len() ==> l1[a] != l1[b],
                j2 <= m,
                m == l1.len(),
                all@.len() == m,
                forall|jj: int|
                    0 <= jj < m ==> nudges_sound((#[trigger] all@[jj])@, ents, g1, space, l1[jj]),
                forall|jj: int|
                    0 <= jj < m ==> nudges_complete(
                        (#[trigger] all@[jj])@,
                        all_ids(ents.len() as int),
                        ents,
                        g1,
                        space,
                        l1[jj],
                    ),
                forall|jj: int|
                    0 <= jj < m ==> ((#[trigger] all@[jj])@.len() == 0 <==> !(exists|c: u64|
                        resolve_candidate(ents, g1, space, l1[jj], c))),
                forall|jj: int, kk: int|
                    0 <= jj < m && 0 <= kk < (#[trigger] all@[jj])@.len() ==> bounded_by(
                        #[trigger] all@[jj]@[kk],
                        2,
                    ),
                forall|jj: int|
                    0 <= jj < j2 ==> resolved_ok(
                        ents[(#[trigger] l1[jj]) as int],
                        self.entities@[l1[jj] as int],
                        space,
                        all@[jj]@,
                    ),
                forall|ii: int|
                    0 <= ii < ents.len() && !(exists|jj: int| 0 <= jj < j2 && (#[trigger] l1[jj] as int) == ii)
                        ==> self.entities@[ii] == ents[ii],
            decreases m - j2,
        {
            let id = ids[j2];
            proof {
                assert(l1[j2 as int] == id);
                assert((id as int) < ents.len());
                assert((id as usize) as int == id as int);
                assert(self.entities@[id as int] == ents[id as int]) by {
                    if exists|jj: int| 0 <= jj < j2 && (l1[jj] as int) == id as int {
                        let jj = choose|jj: int| 0 <= jj < j2 && (l1[jj] as int) == id as int;
                        assert(l1[jj] != l1[j2 as int]);
                        assert(false);
                    }
                }
            }
            let nds = &all[j2];
            let nn = nds.len();
            let mut k: usize = 0;
            while k < nn
                invariant
                    self.uuid == space,
                    self.background == old(self).background,
                    self.viewport == old(self).viewport,
                    self.size == old(self).size,
                    self.ui == old(self).ui,
                    self.entities@.len() == ents.len(),
                    ents.len() <= usize::MAX,
                    (id as int) < ents.len(),
                    (j2 as int) < l1.len(),
                    l1[j2 as int] == id,
                    nn == nds@.len(),
                    k <= nn,
                    forall|kk: int| 0 <= kk < nds@.len() ==> bounded_by(#[trigger] nds@[kk], 2),
                    forall|ii: int|
                        0 <= ii < ents.len() ==> track_wf(#[trigger] self.entities@[ii]),
                    forall|ii: int|
                        0 <= ii < ents.len() ==> (#[trigger] self.entities@[ii]).uuid
                            == ents[ii].uuid && self.entities@[ii].base == ents[ii].base
                            && self.entities@[ii].view == ents[ii].view,
                    live_model(&self.live) == l1,
                    grid_model(&self.grid) == g1,
                    forall|kk: int| 0 <= kk < l1.len() ==> (#[trigger] l1[kk] as int) < ents.len(),
                    forall|a: int, b: int| 0 <= a < b < l1.len() ==> l1[a] != l1[b],
                    forall|ii: int|
                        0 <= ii < ents.len() && ii != id as int && !(exists|jj: int|
                            0 <= jj < j2 && (#[trigger] l1[jj] as int) == ii) ==> self.entities@[ii]
                            == ents[ii],
                    forall|jj: int|
                        0 <= jj < j2 ==> resolved_ok(
                            ents[(#[trigger] l1[jj]) as int],
                            self.entities@[l1[jj] as int],
                            space,
                            all@[jj]@,
                        ),
                    resolved_ok(
                        ents[id as int],
                        self.entities@[id as int],
                        space,
                        nds@.subrange(0, k as int),
                    ),
                decreases nn - k,
            {
                let ghost before_k = self.entities@[id as int];
                proof {
                    assert((id as usize) as int == id as int);
                }
                self.entities[id as usize].queue_offset(space, nds[k], 0);
                proof {
                    assert(drifts_of(before_k, space) == drifts_of(ents[id as int], space)
                        + nudge_view(nds@.subrange(0, k as int)));
                    assert(drifts_of(self.entities@[id as int], space) == drifts_of(
                        before_k,
                        space,
                    ).push((((nds@[k as int].0 as int, nds@[k as int].1 as int)), 0int)));
                    assert(nudge_view(nds@.subrange(0, (k + 1) as int)) =~= nudge_view(
                        nds@.subrange(0, k as int),
                    ).push((((nds@[k as int].0 as int, nds@[k as int].1 as int)), 0int)));
                    assert(drifts_of(self.entities@[id as int], space) =~= drifts_of(
                        ents[id as int],
                        space,
                    ) + nudge_view(nds@.subrange(0, (k + 1) as int)));
                    assert forall|jj: int| 0 <= jj < j2 implies resolved_ok(
                        ents[(#[trigger] l1[jj]) as int],
                        self.entities@[l1[jj] as int],
                        space,
                        all@[jj]@,
                    ) by {
                        assert(l1[jj] != l1[j2 as int]);
                    }
                }
                k = k + 1;
            }
            proof {
                assert(nds@.subrange(0, nn as int) =~= nds@);
                assert(resolved_ok(ents[id as int], self.entities@[id as int], space, all@[j2 as int]@));
                assert forall|ii: int|
                    0 <= ii < ents.len() && !(exists|jj: int|
                        0 <= jj < j2 + 1 && (#[trigger] l1[jj] as int) == ii) implies self.entities@[ii]
                    == ents[ii] by {
                    assert(ii != id as int);
                }
            }
            j2 = j2 + 1;
        }
        let mut j3: usize = 0;
        while j3 < m
            invariant
                self.uuid == space,
                self.background == old(self).background,
                self.viewport == old(self).viewport,
                self.size == old(self).size,
                self.ui == old(self).ui,
                self.entities@.len() == ents.len(),
                ents.len() <= usize::MAX,
                delta <= DELTA_LIMIT,
                forall|ii: int| 0 <= ii < ents.len() ==> track_wf(#[trigger] ents[ii]),
                forall|ii: int| 0 <= ii < ents.len() ==> track_wf(#[trigger] self.entities@[ii]),
                forall|ii: int|
                    0 <= ii < ents.len() ==> (#[trigger] self.entities@[ii]).uuid == ents[ii].uuid
                        && self.entities@[ii].base == ents[ii].base && self.entities@[ii].view
                        == ents[ii].view,
                ids@ == l1,
                live_model(&self.live) == l1,
                grid_model(&self.grid) == g1,
                forall|kk: int| 0 <= kk < l1.len() ==> (#[trigger] l1[kk] as int) < ents.len(),
                forall|a: int, b: int| 0 <= a < b < l1.len() ==> l1[a] != l1[b],
                j3 <= m,
                m == l1.len(),
                all@.len() == m,
                forall|jj: int|
                    0 <= jj < m ==> nudges_sound((#[trigger] all@[jj])@, ents, g1, space, l1[jj]),
                forall|jj: int|
                    0 <= jj < m ==> nudges_complete(
                        (#[trigger] all@[jj])@,
                        all_ids(ents.len() as int),
                        ents,
                        g1,
                        space,
                        l1[jj],
                    ),
                forall|jj: int|
                    0 <= jj < m ==> ((#[trigger] all@[jj])@.len() == 0 <==> !(exists|c: u64|
                        resolve_candidate(ents, g1, space, l1[jj], c))),
                forall|jj: int, kk: int|
                    0 <= jj < m && 0 <= kk < (#[trigger] all@[jj])@.len() ==> bounded_by(
                        #[trigger] all@[jj]@[kk],
                        2,
                    ),
                forall|ii: int|
                    0 <= ii < ents.len() && !l1.contains(ii as u64) ==> #[trigger] self.entities@[ii]
                        == ents[ii],
                forall|jj: int|
                    j3 <= jj < m ==> resolved_ok(
                        ents[(#[trigger] l1[jj]) as int],
                        self.entities@[l1[jj] as int],
                        space,
                        all@[jj]@,
                    ),
                forall|jj: int|
                    0 <= jj < j3 ==> some_step_ok(
                        ents,
                        self.entities@,
                        g1,
                        space,
                        #[trigger] l1[jj],
                        delta as int,
                    ),
            decreases m - j3,
        {
            let id = ids[j3];
            proof {
                assert(l1[j3 as int] == id);
                assert((id as int) < ents.len());
                assert((id as usize) as int == id as int);
                assert(resolved_ok(ents[id as int], self.entities@[id as int], space, all@[j3 as int]@));
            }
            let main = self.entities[id as usize].current_main(space);
            let fp: Option<Vector> = match main {
                MoveEvent::Following(w) => {
                    match w.upgrade(&self.entities) {
                        Some(tid) => {
                            proof {
                                assert((tid as usize) as int == tid as int);
                            }
                            if !self.entities[tid as usize].base().is_destroy() {
                                proof {
                                    crate::track::lemma_offset_bounded(
                                        self.entities@[tid as int],
                                        space,
                                    );
                                }
                                Some(self.entities[tid as usize].get_position(space))
                            } else {
                                None
                            }
                        },
                        None => None,
                    }
                },
                _ => None,
            };
            proof {
                assert(fp_ok(ents, space, id, fp)) by {
                    assert(main == main_of(ents[id as int], space));
                }
                assert(fp matches Some(p) ==> bounded_by(p, POS_LIMIT as int));
            }
            let ghost resolved = self.entities@[id as int];
            let ghost pre3 = self.entities@;
            self.entities[id as usize].integrate(space, fp, delta);
            proof {
                let nds2 = all@[j3 as int]@;
                assert(step_ok(ents[id as int], self.entities@[id as int], space, fp, nds2, delta as int));
                assert(some_step_ok(ents, self.entities@, g1, space, id, delta as int));
                assert forall|jj: int| 0 <= jj < j3 + 1 implies some_step_ok(
                    ents,
                    self.entities@,
                    g1,
                    space,
                    #[trigger] l1[jj],
                    delta as int,
                ) by {
                    if jj < j3 {
                        assert(l1[jj] != l1[j3 as int]);
                        assert(self.entities@[l1[jj] as int] == pre3[l1[jj] as int]);
                        assert(some_step_ok(ents, pre3, g1, space, l1[jj], delta as int));
                        let (fpw, ndsw) = choose|fpw: Option<Vector>, ndsw: Seq<Vector>|
                            step_ok(
                                ents[l1[jj] as int],
                                pre3[l1[jj] as int],
                                space,
                                fpw,
                                ndsw,
                                delta as int,
                            ) && fp_ok(ents, space, l1[jj], fpw) && nudges_sound(
                                ndsw,
                                ents,
                                g1,
                                space,
                                l1[jj],
                            ) && nudges_complete(
                                ndsw,
                                all_ids(ents.len() as int),
                                ents,
                                g1,
                                space,
                                l1[jj],
                            ) && (ndsw.len() == 0 <==> !(exists|c: u64|
                                resolve_candidate(ents, g1, space, l1[jj], c)));
                        assert(step_ok(
                            ents[l1[jj] as int],
                            self.entities@[l1[jj] as int],
                            space,
                            fpw,
                            ndsw,
                            delta as int,
                        ));
                    }
                }
                assert forall|jj: int| j3 + 1 <= jj < m implies resolved_ok(
                    ents[(#[trigger] l1[jj]) as int],
                    self.entities@[l1[jj] as int],
                    space,
                    all@[jj]@,
                ) by {
                    assert(l1[jj] != l1[j3 as int]);
                }
                assert forall|ii: int|
                    0 <= ii < ents.len() && !l1.contains(ii as u64) implies #[trigger] self.entities@[ii]
                    == ents[ii] by {
                    assert(ii != id as int) by {
                        if ii == id as int {
                            assert(l1.contains(id));
                        }
                    }
                }
            }
            j3 = j3 + 1;
        }
        proof {
            assert forall|id: u64| #[trigger] live_model(&self.live).contains(id) implies some_step_ok(
                ents,
                self.entities@,
                g1,
                space,
                id,
                delta as int,
            ) by {
                let jj = choose|jj: int| 0 <= jj < l1.len() && l1[jj] == id;
                assert(l1[jj] == id);
                assert(some_step_ok(ents, self.entities@, g1, space, l1[jj], delta as int));
            }
        }
    }

    /// Append the scene's world boxes to a frame, in order: the background
    /// over the whole scene size, then each live entity's world view boxes in
    /// live-set order (destroyed or removed records are skipped), then the UI
    /// overlay's, and finally the viewport. The overlay's boxes are placed in
    /// the overlay's own space, which is where its entities keep their
    /// positions.
    pub fn render(&self, frame: &mut RenderFrame)
        requires
            scene_wf(*self),
            forall|i: int|
                0 <= i < self.ui.entities@.len() ==> track_wf(#[trigger] self.ui.entities@[i]),
        ensures
            final(frame).entities()@ == old(frame).entities()@.push(background_pair(*self))
                + frames_of_ids(
                live_model(&self.live),
                self.entities@,
                self.uuid,
                live_model(&self.live).len() as int,
            ) + frames_upto(self.ui.entities@, self.ui.uuid, self.ui.entities@.len() as int),
            final(frame).ui_boxes() == old(frame).ui_boxes(),
            final(frame).viewport_spec() == self.viewport,
    {
        let background = (Rect::new(Vector(0, 0), self.size), self.background.clone());
        proof {
            assert(background == background_pair(*self));
        }
        frame.push(background);
        let ghost with_bg = frame.entities()@;
        let n_ents = self.entities.len();
        let ids = self.live.ids();
        let n = ids.len();
        let mut i: usize = 0;
        while i < n
            invariant
                i <= n,
                n == ids@.len(),
                ids@ == live_model(&self.live),
                scene_wf(*self),
                n_ents == self.entities@.len(),
                self.entities@.len() <= usize::MAX,
                with_bg == old(frame).entities()@.push(background_pair(*self)),
                frame.entities()@ == with_bg + frames_of_ids(
                    ids@,
                    self.entities@,
                    self.uuid,
                    i as int,
                ),
                frame.ui_boxes() == old(frame).ui_boxes(),
            decreases n - i,
        {
            let id = ids[i];
            proof {
                assert(live_model(&self.live)[i as int] == id);
                assert((id as int) < self.entities@.len());
                assert((id as usize) as int == id as int);
            }
            let boxes = self.entities[id as usize].viewbox_object(self.uuid);
            frame.append(&boxes);
            proof {
                assert(frame.entities()@ =~= with_bg + frames_of_ids(
                    ids@,
                    self.entities@,
                    self.uuid,
                    (i + 1) as int,
                ));
            }
            i = i + 1;
        }
        self.ui.render(frame);
        frame.set_viewport(self.viewport);
        proof {
            assert(frame.entities()@ =~= old(frame).entities()@.push(background_pair(*self))
                + frames_of_ids(
                live_model(&self.live),
                self.entities@,
                self.uuid,
                live_model(&self.live).len() as int,
            ) + frames_upto(self.ui.entities@, self.ui.uuid, self.ui.entities@.len() as int));
        }
    }
}

/// The identifiers of every arena slot, in slot order.
pub open spec fn all_ids(n: int) -> Seq<u64> {
    Seq::new(n as nat, |i: int| i as u64)
}

/// The live identifiers that survive a rebuild, in their original order:
/// valid slots whose records are not destroyed.
pub open spec fn surviving(l: Seq<u64>, ents: Seq<EnityTrack>) -> Seq<u64>
    decreases l.len(),
{
    if l.len() == 0 {
        Seq::empty()
    } else {
        let rest = surviving(l.drop_last(), ents);
        let id = l.last();
        if (id as int) < ents.len() && !ents[id as int].base.destroyed() {
            rest.push(id)
        } else {
            rest
        }
    }
}

/// Every queued nudge corresponds to some resolve candidate.
pub open spec fn nudges_sound(
    out: Seq<Vector>,
    tracks: Seq<EnityTrack>,
    g: Map<(int, int), Seq<u64>>,
    space: u128,
    enity: u64,
) -> bool {
    forall|j: int|
        0 <= j < out.len() ==> exists|c: u64|
            resolve_candidate(tracks, g, space, enity, c) && ((#[trigger] out[j]).0 as int,
            out[j].1 as int) == nudge_of(
                offset_of(tracks[enity as int], space),
                offset_of(tracks[c as int], space),
            )
}

/// Every resolve candidate among the scanned identifiers has its nudge queued.
pub open spec fn nudges_complete(
    out: Seq<Vector>,
    scanned: Seq<u64>,
    tracks: Seq<EnityTrack>,
    g: Map<(int, int), Seq<u64>>,
    space: u128,
    enity: u64,
) -> bool {
    forall|c: u64|
        (scanned.contains(c) && #[trigger] resolve_candidate(tracks, g, space, enity, c))
            ==> exists|j: int|
            0 <= j < out.len() && (out[j].0 as int, out[j].1 as int) == nudge_of(
                offset_of(tracks[enity as int], space),
                offset_of(tracks[c as int], space),
            )
}

/// The positional corrections for one live entity this tick: one nudge away
/// from each resolve candidate, each the fixed magnitude of two units.
#[verifier::rlimit(100)]
pub fn calc_collision(
    tracks: &Vec<EnityTrack>,
    grid: &SimpleGrid,
    space: u128,
    enity: u64,
) -> (r: Vec<Vector>)
    requires
        (enity as int) < tracks@.len(),
        forall|i: int| 0 <= i < tracks@.len() ==> track_wf(#[trigger] tracks@[i]),
    ensures
        forall|k: int| 0 <= k < r@.len() ==> bounded_by(#[trigger] r@[k], 2),
        nudges_sound(r@, tracks@, grid_model(grid), space, enity),
        nudges_complete(r@, all_ids(tracks@.len() as int), tracks@, grid_model(grid), space, enity),
        r@.len() == 0 <==> !(exists|c: u64|
            resolve_candidate(tracks@, grid_model(grid), space, enity, c)),
        tracks@[enity as int].base.collision_spec() == 0 ==> r@.len() == 0,
{
    let mut out: Vec<Vector> = Vec::new();
    let n_tracks = tracks.len();
    proof {
        assert((enity as usize) as int == enity as int);
    }
    let layer = tracks[enity as usize].base().get_collision();
    if layer == 0 {
        return out;
    }
    let others = grid.collision(tracks, space, enity);
    let sp = tracks[enity as usize].get_position(space);
    proof {
        crate::track::lemma_offset_bounded(tracks@[enity as int], space);
    }
    let m = others.len();
    let mut k: usize = 0;
    while k < m
        invariant
            (enity as int) < tracks@.len(),
            tracks@.len() <= usize::MAX,
            forall|i: int| 0 <= i < tracks@.len() ==> track_wf(#[trigger] tracks@[i]),
            k <= m,
            m == others@.len(),
            layer == tracks@[enity as int].base.collision_spec(),
            layer != 0,
            sp == offset_of(tracks@[enity as int], space),
            bounded_by(sp, POS_LIMIT as int),
            forall|c: u64|
                others@.contains(c) <==> ((c as int) < tracks@.len() && c != enity && (exists|
                    cell: (int, int),
                |
                    track_covers(tracks@[enity as int], space, cell) && #[trigger] grid_model(
                        grid,
                    )[cell].contains(c)) && tracks_overlap(
                    tracks@[enity as int],
                    tracks@[c as int],
                    space,
                )),
            forall|j: int| 0 <= j < out@.len() ==> bounded_by(#[trigger] out@[j], 2),
            nudges_sound(out@, tracks@, grid_model(grid), space, enity),
            nudges_complete(
                out@,
                others@.subrange(0, k as int),
                tracks@,
                grid_model(grid),
                space,
                enity,
            ),
        decreases m - k,
    {
        let c = others[k];
        let ghost out0 = out@;
        let ghost g = grid_model(grid);
        proof {
            assert(others@.contains(c)) by {
                assert(others@[k as int] == c);
            }
            assert((c as usize) as int == c as int);
            crate::track::lemma_offset_bounded(tracks@[c as int], space);
        }
        if tracks[c as usize].base().get_collision() == layer {
            let op = tracks[c as usize].get_position(space);
            let goto = op.to(sp);
            let v = goto.by_length(2);
            out.push(v);
            proof {
                assert(resolve_candidate(tracks@, g, space, enity, c));
                assert((out@[out@.len() - 1].0 as int, out@[out@.len() - 1].1 as int) == nudge_of(
                    offset_of(tracks@[enity as int], space),
                    offset_of(tracks@[c as int], space),
                )) by {
                    reveal(nudge_of);
                }
            }
        }
        proof {
            let pre = others@.subrange(0, k as int);
            assert(others@.subrange(0, (k + 1) as int) =~= pre.push(c));
            assert(nudges_sound(out@, tracks@, g, space, enity)) by {
                assert forall|j: int| 0 <= j < out@.len() implies exists|c2: u64|
                    resolve_candidate(tracks@, g, space, enity, c2) && ((#[trigger] out@[j]).0
                        as int, out@[j].1 as int) == nudge_of(
                        offset_of(tracks@[enity as int], space),
                        offset_of(tracks@[c2 as int], space),
                    ) by {
                    if j < out0.len() {
                        assert(out@[j] == out0[j]);
                        assert(nudges_sound(out0, tracks@, g, space, enity));
                        let c2 = choose|c2: u64|
                            resolve_candidate(tracks@, g, space, enity, c2) && ((out0[j]).0 as int,
                            out0[j].1 as int) == nudge_of(
                                offset_of(tracks@[enity as int], space),
                                offset_of(tracks@[c2 as int], space),
                            );
                        assert(resolve_candidate(tracks@, g, space, enity, c2) && ((out@[j]).0
                            as int, out@[j].1 as int) == nudge_of(
                            offset_of(tracks@[enity as int], space),
                            offset_of(tracks@[c2 as int], space),
                        ));
                    } else {
                        assert(out@[j] == out@[out@.len() - 1]);
                        assert(resolve_candidate(tracks@, g, space, enity, c) && ((out@[j]).0
                            as int, out@[j].1 as int) == nudge_of(
                            offset_of(tracks@[enity as int], space),
                            offset_of(tracks@[c as int], space),
                        ));
                    }
                }
            }
            assert(nudges_complete(out@, pre.push(c), tracks@, g, space, enity)) by {
                assert forall|d: u64|
                    (pre.push(c).contains(d) && #[trigger] resolve_candidate(
                        tracks@,
                        g,
                        space,
                        enity,
                        d,
                    )) implies exists|j: int|
                    0 <= j < out@.len() && (out@[j].0 as int, out@[j].1 as int) == nudge_of(
                        offset_of(tracks@[enity as int], space),
                        offset_of(tracks@[d as int], space),
                    ) by {
                    if pre.contains(d) {
                        assert(nudges_complete(out0, pre, tracks@, g, space, enity));
                        let j = choose|j: int|
                            0 <= j < out0.len() && (out0[j].0 as int, out0[j].1 as int) == nudge_of(
                                offset_of(tracks@[enity as int], space),
                                offset_of(tracks@[d as int], space),
                            );
                        assert(out@[j] == out0[j]);
                    } else {
                        let idx = choose|idx: int|
                            0 <= idx < pre.push(c).len() && (#[trigger] pre.push(c)[idx]) == d;
                        if idx < pre.len() {
                            assert(pre[idx] == d);
                        } else {
                            assert(d == c);
                            assert(out@.len() > out0.len());
                            assert(out@[out@.len() - 1] == out@[out@.len() - 1]);
                        }
                    }
                }
            }
        }
        k = k + 1;
    }
    proof {
        let g = grid_model(grid);
        assert(others@.subrange(0, k as int) =~= others@);
        assert(nudges_complete(out@, all_ids(tracks@.len() as int), tracks@, g, space, enity)) by {
            assert forall|d: u64|
                (all_ids(tracks@.len() as int).contains(d) && #[trigger] resolve_candidate(
                    tracks@,
                    g,
                    space,
                    enity,
                    d,
                )) implies exists|j: int|
                0 <= j < out@.len() && (out@[j].0 as int, out@[j].1 as int) == nudge_of(
                    offset_of(tracks@[enity as int], space),
                    offset_of(tracks@[d as int], space),
                ) by {
                assert(others@.contains(d));
                assert(nudges_complete(out@, others@, tracks@, g, space, enity));
            }
        }
        if out@.len() > 0 {
            assert(nudges_sound(out@, tracks@, g, space, enity));
            let c2 = choose|c2: u64|
                resolve_candidate(tracks@, g, space, enity, c2) && ((out@[0]).0 as int,
                out@[0].1 as int) == nudge_of(
                    offset_of(tracks@[enity as int], space),
                    offset_of(tracks@[c2 as int], space),
                );
            assert(resolve_candidate(tracks@, g, space, enity, c2));
        }
        if exists|c: u64| resolve_candidate(tracks@, g, space, enity, c) {
            let c = choose|c: u64| resolve_candidate(tracks@, g, space, enity, c);
            assert(resolve_candidate(tracks@, g, space, enity, c));
            assert(others@.contains(c));
            assert(nudges_complete(out@, others@, tracks@, g, space, enity));
            assert(out@.len() > 0);
        }
    }
    out
}

/// Swap-removing one identifier from a duplicate-free sequence keeps exactly
/// the others.
proof fn lemma_swap_removed(before: Seq<u64>, after: Seq<u64>, i: int, uuid: u64)
    requires
        0 <= i < before.len(),
        before[i] == uuid,
        after == before.update(i, before.last()).drop_last(),
        forall|a: int, b: int| 0 <= a < b < before.len() ==> before[a] != before[b],
    ensures
        forall|id: u64| after.contains(id) <==> (before.contains(id) && id != uuid),
        forall|a: int, b: int| 0 <= a < b < after.len() ==> after[a] != after[b],
        forall|id: u64| after.contains(id) ==> before.contains(id),
{
    assert forall|id: u64| after.contains(id) implies (before.contains(id) && id != uuid) by {
        let k = choose|k: int| 0 <= k < after.len() && after[k] == id;
        if k == i {
            assert(after[k] == before[before.len() - 1]);
            assert(before.contains(id)) by {
                assert(before[before.len() - 1] == id);
            }
            if before.len() - 1 != i {
                assert(before[i] != before[before.len() - 1]);
            }
        } else {
            assert(after[k] == before[k]);
            assert(before[k] == id);
            if k < i {
                assert(before[k] != before[i]);
            } else {
                assert(before[i] != before[k]);
            }
        }
    }
    assert forall|id: u64| before.contains(id) && id != uuid implies after.contains(id) by {
        let k = choose|k: int| 0 <= k < before.len() && before[k] == id;
        if k == i {
        } else if k == before.len() - 1 {
            if i < after.len() {
                assert(after[i] == id);
            } else {
                assert(i == before.len() - 1);
            }
        } else {
            assert(after[k] == id);
        }
    }
    assert forall|a: int, b: int| 0 <= a < b < after.len() implies after[a] != after[b] by {
        if a == i {
            assert(after[a] == before[before.len() - 1]);
            assert(after[b] == before[b]);
        } else if b == i {
            assert(after[b] == before[before.len() - 1]);
            assert(after[a] == before[a]);
        } else {
            assert(after[a] == before[a]);
            assert(after[b] == before[b]);
        }
    }
}

} // verus!
