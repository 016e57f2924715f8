//! The uniform spatial index: a fixed cell size, a bucket of entity
//! identifiers per cell, insertion into every cell an entity's hit envelope
//! overlaps, and queries that union the overlapped buckets, deduplicate, and
//! verify candidates with the narrow-phase test.

use vstd::prelude::*;
use crate::num::{div_floor, POS_LIMIT};
use crate::ordered::{buckets_model, CellBuckets};
use crate::rect::{env_max_x, env_max_y, env_min_x, env_min_y, rect_ok, Rect};
use crate::track::{hit_env, track_hits_box, track_wf, tracks_overlap, EnityTrack};

verus! {

/// Side length of a grid cell.
pub const GRID_SIZE: i64 = 100;

/// Lowest cell column the rectangle's envelope reaches.
pub open spec fn cell_lo_x(r: Rect) -> int {
    env_min_x(r) / (GRID_SIZE as int)
}

/// Highest cell column the rectangle's envelope reaches.
pub open spec fn cell_hi_x(r: Rect) -> int {
    env_max_x(r) / (GRID_SIZE as int)
}

/// Lowest cell row the rectangle's envelope reaches.
pub open spec fn cell_lo_y(r: Rect) -> int {
    env_min_y(r) / (GRID_SIZE as int)
}

/// Highest cell row the rectangle's envelope reaches.
pub open spec fn cell_hi_y(r: Rect) -> int {
    env_max_y(r) / (GRID_SIZE as int)
}

/// The rectangle's envelope overlaps this cell.
pub open spec fn rect_covers(r: Rect, c: (int, int)) -> bool {
    &&& cell_lo_x(r) <= c.0 <= cell_hi_x(r)
    &&& cell_lo_y(r) <= c.1 <= cell_hi_y(r)
}

/// The entity's hit envelope overlaps this cell.
pub open spec fn track_covers(t: EnityTrack, space: u128, c: (int, int)) -> bool {
    rect_covers(hit_env(t, space), c)
}

/// The uniform grid: one bucket of entity identifiers per cell.
pub struct SimpleGrid {
    pub chunks: CellBuckets,
}

/// The grid's contents: identifiers per cell, in insertion order.
pub open spec fn grid_model(g: &SimpleGrid) -> Map<(int, int), Seq<u64>> {
    buckets_model(&g.chunks)
}

impl SimpleGrid {
    /// An empty grid.
    pub fn new() -> (r: SimpleGrid)
        ensures
            forall|c: (int, int)| #[trigger] grid_model(&r)[c] == Seq::<u64>::empty(),
    {
        SimpleGrid { chunks: CellBuckets::new() }
    }

    /// The inclusive cell range the rectangle's envelope overlaps.
    fn detection(rect: &Rect) -> (r: ((i64, i64), (i64, i64)))
        requires
            rect_ok(*rect),
        ensures
            r.0.0 == cell_lo_x(*rect),
            r.0.1 == cell_lo_y(*rect),
            r.1.0 == cell_hi_x(*rect),
            r.1.1 == cell_hi_y(*rect),
            r.0.0 <= r.1.0,
            r.0.1 <= r.1.1,
            -(3 * crate::num::RECT_LIMIT) <= r.0.0 && r.1.0 <= 3 * crate::num::RECT_LIMIT,
            -(3 * crate::num::RECT_LIMIT) <= r.0.1 && r.1.1 <= 3 * crate::num::RECT_LIMIT,
    {
        let (max, min) = rect.maxmin();
        proof {
            let bound: int = 3 * crate::num::RECT_LIMIT;
            vstd::arithmetic::div_mod::lemma_div_is_ordered(-bound, env_min_x(*rect), GRID_SIZE as int);
            vstd::arithmetic::div_mod::lemma_div_is_ordered(env_max_x(*rect), bound, GRID_SIZE as int);
            vstd::arithmetic::div_mod::lemma_div_is_ordered(-bound, env_min_y(*rect), GRID_SIZE as int);
            vstd::arithmetic::div_mod::lemma_div_is_ordered(env_max_y(*rect), bound, GRID_SIZE as int);
            vstd::arithmetic::div_mod::lemma_div_is_ordered(
                env_min_x(*rect),
                env_max_x(*rect),
                GRID_SIZE as int,
            );
            vstd::arithmetic::div_mod::lemma_div_is_ordered(
                env_min_y(*rect),
                env_max_y(*rect),
                GRID_SIZE as int,
            );
        }
        let lo = (div_floor(min.0, GRID_SIZE), div_floor(min.1, GRID_SIZE));
        let hi = (div_floor(max.0, GRID_SIZE), div_floor(max.1, GRID_SIZE));
        (lo, hi)
    }

    /// Insert an entity into every cell its hit envelope overlaps.
    #[verifier::rlimit(50)]
    pub fn insert(&mut self, tracks: &Vec<EnityTrack>, space: u128, enity: u64)
        requires
            (enity as int) < tracks@.len(),
            track_wf(tracks@[enity as int]),
        ensures
            forall|c: (int, int)|
                track_covers(tracks@[enity as int], space, c) ==> #[trigger] grid_model(
                    final(self),
                )[c] == grid_model(old(self))[c].push(enity),
            forall|c: (int, int)|
                !track_covers(tracks@[enity as int], space, c) ==> #[trigger] grid_model(
                    final(self),
                )[c] == grid_model(old(self))[c],
    {
        let n_tracks = tracks.len();
        proof {
            assert((enity as usize) as int == enity as int);
        }
        let env = tracks[enity as usize].hitbox(space);
        let (lo, hi) = Self::detection(&env);
        let ghost t = tracks@[enity as int];
        let mut x = lo.0;
        while x <= hi.0
            invariant
                lo.0 <= x <= hi.0 + 1,
                lo.0 == cell_lo_x(hit_env(t, space)),
                lo.1 == cell_lo_y(hit_env(t, space)),
                hi.0 == cell_hi_x(hit_env(t, space)),
                hi.1 == cell_hi_y(hit_env(t, space)),
                lo.1 <= hi.1,
                -(3 * crate::num::RECT_LIMIT) <= lo.0 && hi.0 <= 3 * crate::num::RECT_LIMIT,
                -(3 * crate::num::RECT_LIMIT) <= lo.1 && hi.1 <= 3 * crate::num::RECT_LIMIT,
                forall|c: (int, int)|
                    (track_covers(t, space, c) && c.0 < x) ==> #[trigger] buckets_model(
                        &self.chunks,
                    )[c] == buckets_model(&old(self).chunks)[c].push(enity),
                forall|c: (int, int)|
                    !(track_covers(t, space, c) && c.0 < x) ==> #[trigger] buckets_model(
                        &self.chunks,
                    )[c] == buckets_model(&old(self).chunks)[c],
            decreases hi.0 + 1 - x,
        {
            let mut y = lo.1;
            while y <= hi.1
                invariant
                    lo.0 <= x <= hi.0,
                    lo.1 <= y <= hi.1 + 1,
                    lo.0 == cell_lo_x(hit_env(t, space)),
                    lo.1 == cell_lo_y(hit_env(t, space)),
                    hi.0 == cell_hi_x(hit_env(t, space)),
                    hi.1 == cell_hi_y(hit_env(t, space)),
                    -(3 * crate::num::RECT_LIMIT) <= lo.0 && hi.0 <= 3 * crate::num::RECT_LIMIT,
                    -(3 * crate::num::RECT_LIMIT) <= lo.1 && hi.1 <= 3 * crate::num::RECT_LIMIT,
                    forall|c: (int, int)|
                        ((track_covers(t, space, c) && c.0 < x) || (c.0 == x && lo.1 <= c.1 < y))
                            ==> #[trigger] buckets_model(&self.chunks)[c] == buckets_model(
                            &old(self).chunks,
                        )[c].push(enity),
                    forall|c: (int, int)|
                        !((track_covers(t, space, c) && c.0 < x) || (c.0 == x && lo.1 <= c.1 < y))
                            ==> #[trigger] buckets_model(&self.chunks)[c] == buckets_model(
                            &old(self).chunks,
                        )[c],
                decreases hi.1 + 1 - y,
            {
                self.chunks.push((x, y), enity);
                y = y + 1;
            }
            x = x + 1;
        }
    }

    /// Drop every bucket's contents.
    pub fn clear(&mut self)
        ensures
            forall|c: (int, int)| #[trigger] grid_model(final(self))[c] == Seq::<u64>::empty(),
    {
        self.chunks.clear();
    }

    /// Broad-phase candidates for an entity, narrow-phase verified: every
    /// identifier stored in a cell the entity's hit envelope overlaps, except
    /// the entity itself, whose world hit boxes truly overlap the entity's.
    #[verifier::rlimit(100)]
    pub fn collision(&self, tracks: &Vec<EnityTrack>, space: u128, enity: u64) -> (r: Vec<u64>)
        requires
            (enity as int) < tracks@.len(),
            forall|i: int| 0 <= i < tracks@.len() ==> track_wf(#[trigger] tracks@[i]),
        ensures
            forall|c: u64|
                r@.contains(c) <==> ((c as int) < tracks@.len() && c != enity && (exists|
                    cell: (int, int),
                |
                    track_covers(tracks@[enity as int], space, cell) && #[trigger] grid_model(
                        self,
                    )[cell].contains(c)) && tracks_overlap(
                    tracks@[enity as int],
                    tracks@[c as int],
                    space,
                )),
            forall|i: int, j: int| 0 <= i < j < r@.len() ==> r@[i] != r@[j],
    {
        let n_tracks = tracks.len();
        proof {
            assert((enity as usize) as int == enity as int);
        }
        let env = tracks[enity as usize].hitbox(space);
        let (lo, hi) = Self::detection(&env);
        let ghost t = tracks@[enity as int];
        let mut out: Vec<u64> = Vec::new();
        let mut x = lo.0;
        while x <= hi.0
            invariant
                (enity as int) < tracks@.len(),
                forall|i: int| 0 <= i < tracks@.len() ==> track_wf(#[trigger] tracks@[i]),
                t == tracks@[enity as int],
                lo.0 <= x <= hi.0 + 1,
                lo.0 == cell_lo_x(hit_env(t, space)),
                lo.1 == cell_lo_y(hit_env(t, space)),
                hi.0 == cell_hi_x(hit_env(t, space)),
                hi.1 == cell_hi_y(hit_env(t, space)),
                lo.1 <= hi.1,
                -(3 * crate::num::RECT_LIMIT) <= lo.0 && hi.0 <= 3 * crate::num::RECT_LIMIT,
                -(3 * crate::num::RECT_LIMIT) <= lo.1 && hi.1 <= 3 * crate::num::RECT_LIMIT,
                forall|c: u64|
                    out@.contains(c) ==> ((c as int) < tracks@.len() && c != enity && (exists|
                        cell: (int, int),
                    |
                        track_covers(t, space, cell) && #[trigger] grid_model(self)[cell].contains(
                            c,
                        )) && tracks_overlap(t, tracks@[c as int], space)),
                forall|c: u64|
                    ((c as int) < tracks@.len() && c != enity && (exists|cell: (int, int)|
                        cell.0 < x && track_covers(t, space, cell) && #[trigger] grid_model(
                            self,
                        )[cell].contains(c)) && tracks_overlap(t, tracks@[c as int], space))
                        ==> out@.contains(c),
                forall|i: int, j: int| 0 <= i < j < out@.len() ==> out@[i] != out@[j],
            decreases hi.0 + 1 - x,
        {
            let mut y = lo.1;
            while y <= hi.1
                invariant
                    (enity as int) < tracks@.len(),
                    forall|i: int| 0 <= i < tracks@.len() ==> track_wf(#[trigger] tracks@[i]),
                    t == tracks@[enity as int],
                    lo.0 <= x <= hi.0,
                    lo.1 <= y <= hi.1 + 1,
                    lo.0 == cell_lo_x(hit_env(t, space)),
                    lo.1 == cell_lo_y(hit_env(t, space)),
                    hi.0 == cell_hi_x(hit_env(t, space)),
                    hi.1 == cell_hi_y(hit_env(t, space)),
                    -(3 * crate::num::RECT_LIMIT) <= lo.0 && hi.0 <= 3 * crate::num::RECT_LIMIT,
                    -(3 * crate::num::RECT_LIMIT) <= lo.1 && hi.1 <= 3 * crate::num::RECT_LIMIT,
                    forall|c: u64|
                        out@.contains(c) ==> ((c as int) < tracks@.len() && c != enity && (exists|
                            cell: (int, int),
                        |
                            track_covers(t, space, cell) && #[trigger] grid_model(
                                self,
                            )[cell].contains(c)) && tracks_overlap(t, tracks@[c as int], space)),
                    forall|c: u64|
                        ((c as int) < tracks@.len() && c != enity && (exists|cell: (int, int)|
                            (cell.0 < x || (cell.0 == x && cell.1 < y)) && track_covers(
                                t,
                                space,
                                cell,
                            ) && #[trigger] grid_model(self)[cell].contains(c)) && tracks_overlap(
                            t,
                            tracks@[c as int],
                            space,
                        )) ==> out@.contains(c),
                    forall|i: int, j: int| 0 <= i < j < out@.len() ==> out@[i] != out@[j],
                decreases hi.1 + 1 - y,
            {
                let bucket = self.chunks.get((x, y));
                let m = bucket.len();
                let mut k: usize = 0;
                while k < m
                    invariant
                        (enity as int) < tracks@.len(),
                        forall|i: int| 0 <= i < tracks@.len() ==> track_wf(#[trigger] tracks@[i]),
                        t == tracks@[enity as int],
                        lo.0 <= x <= hi.0,
                        lo.1 <= y <= hi.1,
                        lo.0 == cell_lo_x(hit_env(t, space)),
                        lo.1 == cell_lo_y(hit_env(t, space)),
                        hi.0 == cell_hi_x(hit_env(t, space)),
                        hi.1 == cell_hi_y(hit_env(t, space)),
                        -(3 * crate::num::RECT_LIMIT) <= lo.0 && hi.0 <= 3 * crate::num::RECT_LIMIT,
                        -(3 * crate::num::RECT_LIMIT) <= lo.1 && hi.1 <= 3 * crate::num::RECT_LIMIT,
                        k <= m,
                        m == bucket@.len(),
                        bucket@ == grid_model(self)[(x as int, y as int)],
                        forall|c: u64|
                            out@.contains(c) ==> ((c as int) < tracks@.len() && c != enity && (
                            exists|cell: (int, int)|
                                track_covers(t, space, cell) && #[trigger] grid_model(
                                    self,
                                )[cell].contains(c)) && tracks_overlap(t, tracks@[c as int], space)),
                        forall|c: u64|
                            ((c as int) < tracks@.len() && c != enity && ((exists|cell: (int, int)|
                                (cell.0 < x || (cell.0 == x && cell.1 < y)) && track_covers(
                                    t,
                                    space,
                                    cell,
                                ) && #[trigger] grid_model(self)[cell].contains(c)) || bucket@.subrange(
                                0,
                                k as int,
                            ).contains(c)) && tracks_overlap(t, tracks@[c as int], space))
                            ==> out@.contains(c),
                        forall|i: int, j: int| 0 <= i < j < out@.len() ==> out@[i] != out@[j],
                    decreases m - k,
                {
                    let c = bucket[k];
                    let ghost out0 = out@;
                    proof {
                        assert(track_covers(t, space, (x as int, y as int)));
                        assert(bucket@.contains(c)) by {
                            assert(bucket@[k as int] == c);
                        }
                        assert(grid_model(self)[(x as int, y as int)].contains(c));
                    }
                    if c != enity && c < tracks.len() as u64 && !vec_contains(&out, c) {
                        proof {
                            assert((c as usize) as int == c as int);
                        }
                        if tracks[enity as usize].collision(space, &tracks[c as usize]) {
                            out.push(c);
                            proof {
                                assert(out@[out@.len() - 1] == c);
                                assert(out@.contains(c));
                            }
                        }
                    }
                    proof {
                        assert(bucket@.subrange(0, (k + 1) as int) =~= bucket@.subrange(
                            0,
                            k as int,
                        ).push(bucket@[k as int]));
                        assert(bucket@[k as int] == c);
                        assert forall|d: u64| out0.contains(d) implies #[trigger] out@.contains(d) by {
                            let idx = choose|idx: int| 0 <= idx < out0.len() && out0[idx] == d;
                            assert(out@[idx] == d);
                        }
                        if (c as int) < tracks@.len() && c != enity && tracks_overlap(
                            t,
                            tracks@[c as int],
                            space,
                        ) {
                            assert(out@.contains(c));
                        }
                        assert forall|d: u64| out@.contains(d) implies ((d as int)
                            < tracks@.len() && d != enity && (exists|cell: (int, int)|
                            track_covers(t, space, cell) && #[trigger] grid_model(
                                self,
                            )[cell].contains(d)) && tracks_overlap(t, tracks@[d as int], space)) by {
                            if !out0.contains(d) {
                                let idx = choose|idx: int|
                                    0 <= idx < out@.len() && out@[idx] == d;
                                assert(out@ == out0.push(c));
                                if idx < out0.len() {
                                    assert(out0[idx] == d);
                                    assert(out0.contains(d));
                                } else {
                                    assert(d == c);
                                }
                            }
                        }
                        assert forall|d: u64|
                            ((d as int) < tracks@.len() && d != enity && ((exists|
                                cell: (int, int),
                            |
                                (cell.0 < x || (cell.0 == x && cell.1 < y)) && track_covers(
                                    t,
                                    space,
                                    cell,
                                ) && #[trigger] grid_model(self)[cell].contains(d))
                                || bucket@.subrange(0, (k + 1) as int).contains(d))
                                && tracks_overlap(t, tracks@[d as int], space)) implies out@.contains(
                            d,
                        ) by {
                            if bucket@.subrange(0, (k + 1) as int).contains(d) && !bucket@.subrange(
                                0,
                                k as int,
                            ).contains(d) {
                                let idx = choose|idx: int|
                                    0 <= idx < bucket@.subrange(0, (k + 1) as int).len() && (
                                    #[trigger] bucket@.subrange(0, (k + 1) as int)[idx]) == d;
                                if idx < k {
                                    assert(bucket@.subrange(0, k as int)[idx] == d);
                                } else {
                                    assert(d == c);
                                }
                            }
                        }
                    }
                    k = k + 1;
                }
                proof {
                    assert forall|c: u64|
                        ((c as int) < tracks@.len() && c != enity && (exists|cell: (int, int)|
                            (cell.0 < x || (cell.0 == x && cell.1 < y + 1)) && track_covers(
                                t,
                                space,
                                cell,
                            ) && #[trigger] grid_model(self)[cell].contains(c)) && tracks_overlap(
                            t,
                            tracks@[c as int],
                            space,
                        )) implies out@.contains(c) by {
                        let cell = choose|cell: (int, int)|
                            (cell.0 < x || (cell.0 == x && cell.1 < y + 1)) && track_covers(
                                t,
                                space,
                                cell,
                            ) && #[trigger] grid_model(self)[cell].contains(c);
                        if cell.0 == x && cell.1 == y {
                            assert(bucket@.subrange(0, m as int) =~= bucket@);
                        }
                    }
                }
                y = y + 1;
            }
            x = x + 1;
        }
        proof {
            assert forall|c: u64|
                ((c as int) < tracks@.len() && c != enity && (exists|cell: (int, int)|
                    track_covers(t, space, cell) && #[trigger] grid_model(self)[cell].contains(c))
                    && tracks_overlap(t, tracks@[c as int], space)) implies out@.contains(c) by {
                let cell = choose|cell: (int, int)|
                    track_covers(t, space, cell) && #[trigger] grid_model(self)[cell].contains(c);
                assert(cell.0 < x);
            }
        }
        out
    }

    /// Broad-phase candidates for an explicit rectangle, narrow-phase
    /// verified against the rectangle.
    #[verifier::rlimit(100)]
    pub fn collision_by_rect(&self, tracks: &Vec<EnityTrack>, space: u128, rect: Rect) -> (r: Vec<
        u64,
    >)
        requires
            rect_ok(rect),
            forall|i: int| 0 <= i < tracks@.len() ==> track_wf(#[trigger] tracks@[i]),
        ensures
            forall|c: u64|
                r@.contains(c) <==> ((c as int) < tracks@.len() && (exists|cell: (int, int)|
                    rect_covers(rect, cell) && #[trigger] grid_model(self)[cell].contains(c))
                    && track_hits_box(tracks@[c as int], space, rect)),
            forall|i: int, j: int| 0 <= i < j < r@.len() ==> r@[i] != r@[j],
    {
        let (lo, hi) = Self::detection(&rect);
        let mut out: Vec<u64> = Vec::new();
        let mut x = lo.0;
        while x <= hi.0
            invariant
                rect_ok(rect),
                forall|i: int| 0 <= i < tracks@.len() ==> track_wf(#[trigger] tracks@[i]),
                lo.0 <= x <= hi.0 + 1,
                lo.0 == cell_lo_x(rect),
                lo.1 == cell_lo_y(rect),
                hi.0 == cell_hi_x(rect),
                hi.1 == cell_hi_y(rect),
                lo.1 <= hi.1,
                -(3 * crate::num::RECT_LIMIT) <= lo.0 && hi.0 <= 3 * crate::num::RECT_LIMIT,
                -(3 * crate::num::RECT_LIMIT) <= lo.1 && hi.1 <= 3 * crate::num::RECT_LIMIT,
                forall|c: u64|
                    out@.contains(c) ==> ((c as int) < tracks@.len() && (exists|cell: (int, int)|
                        rect_covers(rect, cell) && #[trigger] grid_model(self)[cell].contains(c))
                        && track_hits_box(tracks@[c as int], space, rect)),
                forall|c: u64|
                    ((c as int) < tracks@.len() && (exists|cell: (int, int)|
                        cell.0 < x && rect_covers(rect, cell) && #[trigger] grid_model(
                            self,
                        )[cell].contains(c)) && track_hits_box(tracks@[c as int], space, rect))
                        ==> out@.contains(c),
                forall|i: int, j: int| 0 <= i < j < out@.len() ==> out@[i] != out@[j],
            decreases hi.0 + 1 - x,
        {
            let mut y = lo.1;
            while y <= hi.1
                invariant
                    rect_ok(rect),
                    forall|i: int| 0 <= i < tracks@.len() ==> track_wf(#[trigger] tracks@[i]),
                    lo.0 <= x <= hi.0,
                    lo.1 <= y <= hi.1 + 1,
                    lo.0 == cell_lo_x(rect),
                    lo.1 == cell_lo_y(rect),
                    hi.0 == cell_hi_x(rect),
                    hi.1 == cell_hi_y(rect),
                    -(3 * crate::num::RECT_LIMIT) <= lo.0 && hi.0 <= 3 * crate::num::RECT_LIMIT,
                    -(3 * crate::num::RECT_LIMIT) <= lo.1 && hi.1 <= 3 * crate::num::RECT_LIMIT,
                    forall|c: u64|
                        out@.contains(c) ==> ((c as int) < tracks@.len() && (exists|
                            cell: (int, int),
                        |
                            rect_covers(rect, cell) && #[trigger] grid_model(self)[cell].contains(
                                c,
                            )) && track_hits_box(tracks@[c as int], space, rect)),
                    forall|c: u64|
                        ((c as int) < tracks@.len() && (exists|cell: (int, int)|
                            (cell.0 < x || (cell.0 == x && cell.1 < y)) && rect_covers(rect, cell)
                                && #[trigger] grid_model(self)[cell].contains(c)) && track_hits_box(
                            tracks@[c as int],
                            space,
                            rect,
                        )) ==> out@.contains(c),
                    forall|i: int, j: int| 0 <= i < j < out@.len() ==> out@[i] != out@[j],
                decreases hi.1 + 1 - y,
            {
                let bucket = self.chunks.get((x, y));
                let m = bucket.len();
                let mut k: usize = 0;
                while k < m
                    invariant
                        rect_ok(rect),
                        forall|i: int| 0 <= i < tracks@.len() ==> track_wf(#[trigger] tracks@[i]),
                        lo.0 <= x <= hi.0,
                        lo.1 <= y <= hi.1,
                        lo.0 == cell_lo_x(rect),
                        lo.1 == cell_lo_y(rect),
                        hi.0 == cell_hi_x(rect),
                        hi.1 == cell_hi_y(rect),
                        -(3 * crate::num::RECT_LIMIT) <= lo.0 && hi.0 <= 3 * crate::num::RECT_LIMIT,
                        -(3 * crate::num::RECT_LIMIT) <= lo.1 && hi.1 <= 3 * crate::num::RECT_LIMIT,
                        k <= m,
                        m == bucket@.len(),
                        bucket@ == grid_model(self)[(x as int, y as int)],
                        forall|c: u64|
                            out@.contains(c) ==> ((c as int) < tracks@.len() && (exists|
                                cell: (int, int),
                            |
                                rect_covers(rect, cell) && #[trigger] grid_model(
                                    self,
                                )[cell].contains(c)) && track_hits_box(
                                tracks@[c as int],
                                space,
                                rect,
                            )),
                        forall|c: u64|
                            ((c as int) < tracks@.len() && ((exists|cell: (int, int)|
                                (cell.0 < x || (cell.0 == x && cell.1 < y)) && rect_covers(
                                    rect,
                                    cell,
                                ) && #[trigger] grid_model(self)[cell].contains(c))
                                || bucket@.subrange(0, k as int).contains(c)) && track_hits_box(
                                tracks@[c as int],
                                space,
                                rect,
                            )) ==> out@.contains(c),
                        forall|i: int, j: int| 0 <= i < j < out@.len() ==> out@[i] != out@[j],
                    decreases m - k,
                {
                    let c = bucket[k];
                    let ghost out0 = out@;
                    proof {
                        assert(rect_covers(rect, (x as int, y as int)));
                        assert(bucket@.contains(c)) by {
                            assert(bucket@[k as int] == c);
                        }
                        assert(grid_model(self)[(x as int, y as int)].contains(c));
                    }
                    if c < tracks.len() as u64 && !vec_contains(&out, c) {
                        proof {
                            assert((c as usize) as int == c as int);
                        }
                        if tracks[c as usize].collision_node(space, rect) {
                            out.push(c);
                            proof {
                                assert(out@[out@.len() - 1] == c);
                                assert(out@.contains(c));
                            }
                        }
                    }
                    proof {
                        assert(bucket@.subrange(0, (k + 1) as int) =~= bucket@.subrange(
                            0,
                            k as int,
                        ).push(bucket@[k as int]));
                        assert(bucket@[k as int] == c);
                        assert forall|d: u64| out0.contains(d) implies #[trigger] out@.contains(d) by {
                            let idx = choose|idx: int| 0 <= idx < out0.len() && out0[idx] == d;
                            assert(out@[idx] == d);
                        }
                        if (c as int) < tracks@.len() && track_hits_box(
                            tracks@[c as int],
                            space,
                            rect,
                        ) {
                            assert(out@.contains(c));
                        }
                        assert forall|d: u64| out@.contains(d) implies ((d as int)
                            < tracks@.len() && (exists|cell: (int, int)|
                            rect_covers(rect, cell) && #[trigger] grid_model(self)[cell].contains(
                                d,
                            )) && track_hits_box(tracks@[d as int], space, rect)) by {
                            if !out0.contains(d) {
                                let idx = choose|idx: int|
                                    0 <= idx < out@.len() && out@[idx] == d;
                                assert(out@ == out0.push(c));
                                if idx < out0.len() {
                                    assert(out0[idx] == d);
                                    assert(out0.contains(d));
                                } else {
                                    assert(d == c);
                                }
                            }
                        }
                        assert forall|d: u64|
                            ((d as int) < tracks@.len() && ((exists|cell: (int, int)|
                                (cell.0 < x || (cell.0 == x && cell.1 < y)) && rect_covers(
                                    rect,
                                    cell,
                                ) && #[trigger] grid_model(self)[cell].contains(d))
                                || bucket@.subrange(0, (k + 1) as int).contains(d))
                                && track_hits_box(tracks@[d as int], space, rect)) implies out@.contains(
                            d,
                        ) by {
                            if bucket@.subrange(0, (k + 1) as int).contains(d) && !bucket@.subrange(
                                0,
                                k as int,
                            ).contains(d) {
                                let idx = choose|idx: int|
                                    0 <= idx < bucket@.subrange(0, (k + 1) as int).len() && (
                                    #[trigger] bucket@.subrange(0, (k + 1) as int)[idx]) == d;
                                if idx < k {
                                    assert(bucket@.subrange(0, k as int)[idx] == d);
                                } else {
                                    assert(d == c);
                                }
                            }
                        }
                    }
                    k = k + 1;
                }
                proof {
                    assert forall|c: u64|
                        ((c as int) < tracks@.len() && (exists|cell: (int, int)|
                            (cell.0 < x || (cell.0 == x && cell.1 < y + 1)) && rect_covers(
                                rect,
                                cell,
                            ) && #[trigger] grid_model(self)[cell].contains(c)) && track_hits_box(
                            tracks@[c as int],
                            space,
                            rect,
                        )) implies out@.contains(c) by {
                        let cell = choose|cell: (int, int)|
                            (cell.0 < x || (cell.0 == x && cell.1 < y + 1)) && rect_covers(
                                rect,
                                cell,
                            ) && #[trigger] grid_model(self)[cell].contains(c);
                        if cell.0 == x && cell.1 == y {
                            assert(bucket@.subrange(0, m as int) =~= bucket@);
                        }
                    }
                }
                y = y + 1;
            }
            x = x + 1;
        }
        proof {
            assert forall|c: u64|
                ((c as int) < tracks@.len() && (exists|cell: (int, int)|
                    rect_covers(rect, cell) && #[trigger] grid_model(self)[cell].contains(c))
                    && track_hits_box(tracks@[c as int], space, rect)) implies out@.contains(c) by {
                let cell = choose|cell: (int, int)|
                    rect_covers(rect, cell) && #[trigger] grid_model(self)[cell].contains(c);
                assert(cell.0 < x);
            }
        }
        out
    }
}

/// Whether the list already holds the identifier.
fn vec_contains(v: &Vec<u64>, id: u64) -> (r: bool)
    ensures
        r == v@.contains(id),
{
    let n = v.len();
    let mut i: usize = 0;
    while i < n
        invariant
            i <= n,
            n == v@.len(),
            forall|j: int| 0 <= j < i ==> v@[j] != id,
        decreases n - i,
    {
        if v[i] == id {
            return true;
        }
        i = i + 1;
    }
    false
}

/// Two envelopes that meet (allowing exact touch) share a grid cell: the
/// round-trip guarantee of the uniform index's broad phase.
pub proof fn lemma_envelopes_share_cell(a: Rect, b: Rect)
    requires
        env_min_x(a) <= env_max_x(a),
        env_min_y(a) <= env_max_y(a),
        env_min_x(b) <= env_max_x(b),
        env_min_y(b) <= env_max_y(b),
        env_min_x(a) <= env_max_x(b),
        env_min_x(b) <= env_max_x(a),
        env_min_y(a) <= env_max_y(b),
        env_min_y(b) <= env_max_y(a),
    ensures
        exists|c: (int, int)| #[trigger] rect_covers(a, c) && rect_covers(b, c),
{
    let cx = if env_min_x(a) >= env_min_x(b) {
        env_min_x(a)
    } else {
        env_min_x(b)
    };
    let cy = if env_min_y(a) >= env_min_y(b) {
        env_min_y(a)
    } else {
        env_min_y(b)
    };
    let g = GRID_SIZE as int;
    let c = (cx / g, cy / g);
    vstd::arithmetic::div_mod::lemma_div_is_ordered(env_min_x(a), cx, g);
    vstd::arithmetic::div_mod::lemma_div_is_ordered(env_min_x(b), cx, g);
    vstd::arithmetic::div_mod::lemma_div_is_ordered(cx, env_max_x(a), g);
    vstd::arithmetic::div_mod::lemma_div_is_ordered(cx, env_max_x(b), g);
    vstd::arithmetic::div_mod::lemma_div_is_ordered(env_min_y(a), cy, g);
    vstd::arithmetic::div_mod::lemma_div_is_ordered(env_min_y(b), cy, g);
    vstd::arithmetic::div_mod::lemma_div_is_ordered(cy, env_max_y(a), g);
    vstd::arithmetic::div_mod::lemma_div_is_ordered(cy, env_max_y(b), g);
    assert(rect_covers(a, c) && rect_covers(b, c));
}


/// Index round trip: after an entity is inserted, any region query whose
/// envelope meets the entity's placement envelope has the entity in some
/// shared bucket — with the query contracts, the entity therefore comes back
/// whenever its hit boxes truly meet the queried rectangle.
pub proof fn lemma_index_round_trip(
    before: Map<(int, int), Seq<u64>>,
    after: Map<(int, int), Seq<u64>>,
    tracks: Seq<EnityTrack>,
    space: u128,
    enity: u64,
    q: Rect,
)
    requires
        (enity as int) < tracks.len(),
        forall|c: (int, int)|
            track_covers(tracks[enity as int], space, c) ==> #[trigger] after[c] == before[c].push(
                enity,
            ),
        env_min_x(hit_env(tracks[enity as int], space)) <= env_max_x(
            hit_env(tracks[enity as int], space),
        ),
        env_min_y(hit_env(tracks[enity as int], space)) <= env_max_y(
            hit_env(tracks[enity as int], space),
        ),
        env_min_x(q) <= env_max_x(q),
        env_min_y(q) <= env_max_y(q),
        env_min_x(hit_env(tracks[enity as int], space)) <= env_max_x(q),
        env_min_x(q) <= env_max_x(hit_env(tracks[enity as int], space)),
        env_min_y(hit_env(tracks[enity as int], space)) <= env_max_y(q),
        env_min_y(q) <= env_max_y(hit_env(tracks[enity as int], space)),
    ensures
        exists|cell: (int, int)|
            #[trigger] rect_covers(q, cell) && track_covers(tracks[enity as int], space, cell)
                && after[cell].contains(enity),
{
    lemma_envelopes_share_cell(hit_env(tracks[enity as int], space), q);
    let cell = choose|cell: (int, int)|
        #[trigger] rect_covers(hit_env(tracks[enity as int], space), cell) && rect_covers(q, cell);
    assert(track_covers(tracks[enity as int], space, cell));
    assert(after[cell] == before[cell].push(enity));
    assert(after[cell][after[cell].len() - 1] == enity);
    assert(after[cell].contains(enity));
}

} // verus!
