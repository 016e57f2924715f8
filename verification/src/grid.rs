//! The adaptive spatial index: a fixed-depth subdivision tree per coarse
//! cell. A node starts as a flat block; past a capacity threshold it becomes
//! a branch of nine (at the root level) or four (one level down) children,
//! with an overflow list for entries straddling more than one child or
//! leaving the cell. Child slots are computed relative to the parent cell's
//! low corner, so an entry only ever descends into the child whose rectangle
//! holds its whole envelope; queries descend only into children whose cell
//! rectangle overlaps the query envelope, collecting overflow lists along
//! the way, which `lemma_prune_sound` shows loses nothing.

use vstd::prelude::*;
use crate::num::{div_floor, POS_LIMIT};
use crate::rect::{env_max_x, env_max_y, env_min_x, env_min_y, rect_ok, Rect};
use crate::rotation::Rotor;
use crate::track::{track_hits_box, track_wf, tracks_overlap, view_env, EnityTrack};
use crate::vector::Vector;

verus! {

/// Side length of a root cell.
pub const GRID_SIZE_L: i64 = 1200;

/// Side length of a mid-level cell (the root subdivides three by three).
pub const GRID_SUB_SIZE: i64 = 400;

/// Side length of a leaf cell (a mid cell subdivides two by two).
pub const GRID_BLOCK_SIZE: i64 = 200;

/// Entries a block holds, per remaining depth step, before subdividing.
pub const GRID_CAPACITY: usize = 4;

/// A subdivision-tree node: a branch of nine root-level children, a branch of
/// four mid-level children (each with an overflow list for entries that
/// straddle children), or a flat block of entries.
pub enum GridChunk {
    Grid(Vec<GridChunk>, Vec<u64>),
    SubGrid(Vec<GridChunk>, Vec<u64>),
    Block(Vec<u64>),
}

/// The shape invariant at a depth: branches only above the maximum depth,
/// with their fixed fan-out.
pub open spec fn chunk_wf(c: GridChunk, depth: int) -> bool
    decreases 3 - depth,
{
    &&& 0 <= depth <= 2
    &&& match c {
        GridChunk::Grid(children, _) => depth == 0 && children@.len() == 9 && (forall|i: int|
            0 <= i < 9 ==> chunk_wf(#[trigger] children@[i], 1)),
        GridChunk::SubGrid(children, _) => depth == 1 && children@.len() == 4 && (forall|i: int|
            0 <= i < 4 ==> chunk_wf(#[trigger] children@[i], 2)),
        GridChunk::Block(_) => true,
    }
}

/// Two trees have the same branching structure (the stored entries may
/// differ).
pub open spec fn same_shape(a: GridChunk, b: GridChunk) -> bool
    decreases a,
{
    match a {
        GridChunk::Grid(ca, _) => b matches GridChunk::Grid(cb, _) && ca@.len() == cb@.len() && (
        forall|i: int| 0 <= i < ca@.len() ==> same_shape(#[trigger] ca@[i], cb@[i])),
        GridChunk::SubGrid(ca, _) => b matches GridChunk::SubGrid(cb, _) && ca@.len() == cb@.len()
            && (forall|i: int| 0 <= i < ca@.len() ==> same_shape(#[trigger] ca@[i], cb@[i])),
        GridChunk::Block(_) => b matches GridChunk::Block(_),
    }
}

/// The low corner of a cell rectangle (sizes of real cells are even, so the
/// halving is exact).
pub open spec fn cell_low(cell: Rect) -> (int, int) {
    (
        cell.position.0 - cell.size.0 as int / 2,
        cell.position.1 - cell.size.1 as int / 2,
    )
}

/// The child slot of a point inside a branch over `cell`: the flooring cell
/// index of the point relative to the parent's low corner. A point outside
/// the parent yields an index outside `0..width`, which the placement check
/// below rejects, so entries are only ever routed into a child whose
/// rectangle truly holds them.
pub open spec fn place_of(x: int, y: int, low: (int, int), size: int) -> (int, int) {
    ((x - low.0) / size, (y - low.1) / size)
}

/// Where an entity descends in a branch over `cell`: the common in-range
/// child slot of its four placement-envelope corners, or nothing when they
/// straddle slots or leave the parent cell.
pub open spec fn placement_of(t: EnityTrack, space: u128, cell: Rect, width: int, size: int) -> Option<
    (int, int),
> {
    let e = view_env(t, space);
    let low = cell_low(cell);
    let p0 = place_of(crate::rect::corner_spec(e, 0).0, crate::rect::corner_spec(e, 0).1, low, size);
    let p1 = place_of(crate::rect::corner_spec(e, 1).0, crate::rect::corner_spec(e, 1).1, low, size);
    let p2 = place_of(crate::rect::corner_spec(e, 2).0, crate::rect::corner_spec(e, 2).1, low, size);
    let p3 = place_of(crate::rect::corner_spec(e, 3).0, crate::rect::corner_spec(e, 3).1, low, size);
    if p1 == p0 && p2 == p0 && p3 == p0 && 0 <= p0.0 < width && 0 <= p0.1 < width {
        Some(p0)
    } else {
        None
    }
}

/// One insertion step on a branch: the entity descends into its single child
/// slot, leaving the overflow list and the other children untouched, or
/// joins the overflow list when its corners straddle slots.
pub open spec fn branch_step(
    ch: Seq<GridChunk>,
    l: Seq<u64>,
    ch2: Seq<GridChunk>,
    l2: Seq<u64>,
    t: EnityTrack,
    space: u128,
    cell: Rect,
    width: int,
    size: int,
    enity: u64,
) -> bool {
    match placement_of(t, space, cell, width, size) {
        Some(c) => {
            let idx = c.0 + c.1 * width;
            &&& l2 == l
            &&& ch2.len() == ch.len()
            &&& 0 <= idx < ch.len()
            &&& forall|j: int| 0 <= j < ch.len() && j != idx ==> ch2[j] == ch[j]
            &&& forall|d: u64|
                chunk_has(#[trigger] ch2[idx], d) <==> (chunk_has(ch[idx], d) || d == enity)
        },
        None => ch2 == ch && l2 == l.push(enity),
    }
}

/// The shape of one insertion step: a branch routes the entity to its single
/// child slot or its overflow list; a block past its capacity for the
/// remaining depth subdivides into a branch, otherwise it appends.
pub open spec fn insert_shape_ok(
    chunk: GridChunk,
    r: GridChunk,
    t: EnityTrack,
    space: u128,
    enity: u64,
    cell: Rect,
    depth: int,
) -> bool {
    match chunk {
        GridChunk::Grid(ch, l) => r matches GridChunk::Grid(ch2, l2) && branch_step(
            ch@,
            l@,
            ch2@,
            l2@,
            t,
            space,
            cell,
            3,
            GRID_SUB_SIZE as int,
            enity,
        ),
        GridChunk::SubGrid(ch, l) => r matches GridChunk::SubGrid(ch2, l2) && branch_step(
            ch@,
            l@,
            ch2@,
            l2@,
            t,
            space,
            cell,
            2,
            GRID_BLOCK_SIZE as int,
            enity,
        ),
        GridChunk::Block(l) => {
            if depth < 2 && l@.len() == (2 - depth) * GRID_CAPACITY {
                !(r matches GridChunk::Block(_))
            } else {
                r matches GridChunk::Block(l2) && l2@ == l@.push(enity)
            }
        },
    }
}

/// Every stored identifier is a valid arena index.
pub open spec fn chunk_ids_valid(c: GridChunk, n: int) -> bool {
    forall|d: u64| #[trigger] chunk_has(c, d) ==> (d as int) < n
}

/// The child cell rectangle at slot `i` of a branch over `cell`: the parent's
/// low corner plus the child's column and row offsets, centered.
pub open spec fn child_cell_of(cell: Rect, width: int, size: int, i: int) -> Rect {
    Rect {
        position: Vector(
            (cell.position.0 - cell.size.0 as int / 2 + (i % width) * size + size / 2) as i64,
            (cell.position.1 - cell.size.1 as int / 2 + (i / width) * size + size / 2) as i64,
        ),
        size: Vector(size as i64, size as i64),
        angle: Rotor { c: crate::num::ROT_ONE, s: 0 },
    }
}

/// What a query collects from a subtree: the node's overflow list, then, for
/// each child in slot order whose cell rectangle strictly overlaps the query
/// envelope, whatever that child's subtree collects.
pub open spec fn collect_spec(c: GridChunk, query: Rect, cell: Rect, depth: int) -> Seq<u64>
    decreases 3 - depth, 0int, 0int,
        when 0 <= depth <= 2
{
    match c {
        GridChunk::Grid(children, list) => list@ + collect_kids(
            children@,
            query,
            cell,
            3,
            GRID_SUB_SIZE as int,
            depth + 1,
            children@.len() as int,
        ),
        GridChunk::SubGrid(children, list) => list@ + collect_kids(
            children@,
            query,
            cell,
            2,
            GRID_BLOCK_SIZE as int,
            depth + 1,
            children@.len() as int,
        ),
        GridChunk::Block(list) => list@,
    }
}

/// The concatenation of the first `upto` children's collections, skipping
/// children whose cell rectangle misses the query envelope.
pub open spec fn collect_kids(
    children: Seq<GridChunk>,
    query: Rect,
    cell: Rect,
    width: int,
    size: int,
    depth: int,
    upto: int,
) -> Seq<u64>
    decreases 3 - depth, 1int, upto,
        when 1 <= depth <= 3
{
    if upto <= 0 {
        Seq::empty()
    } else {
        let prev = collect_kids(children, query, cell, width, size, depth, upto - 1);
        let sub = child_cell_of(cell, width, size, upto - 1);
        if crate::rect::env_overlap(sub, query) {
            prev + collect_spec(children[upto - 1], query, sub, depth)
        } else {
            prev
        }
    }
}

/// Root-cell keys the queries visit; cells beyond the world bound hold
/// nothing and are skipped.
pub open spec fn key_in_bounds(k: (i64, i64)) -> bool {
    &&& -4_000_000_000 <= k.0 <= 4_000_000_000
    &&& -4_000_000_000 <= k.1 <= 4_000_000_000
}

/// The rectangle of a root cell.
pub open spec fn root_cell_rect(k: (i64, i64)) -> Rect {
    Rect {
        position: Vector(
            (k.0 * GRID_SIZE_L + 600) as i64,
            (k.1 * GRID_SIZE_L + 600) as i64,
        ),
        size: Vector(GRID_SIZE_L, GRID_SIZE_L),
        angle: Rotor { c: crate::num::ROT_ONE, s: 0 },
    }
}

/// A broad-phase candidate of the adaptive index for a query envelope: some
/// visited root cell's tree collects it.
pub open spec fn adaptive_candidate(g: Grid, query: Rect, c: u64) -> bool {
    exists|i: int|
        0 <= i < g.chunks@.len() && key_in_bounds((#[trigger] g.chunks@[i]).0) && crate::rect::env_overlap(
            root_cell_rect(g.chunks@[i].0),
            query,
        ) && collect_spec(g.chunks@[i].1, query, root_cell_rect(g.chunks@[i].0), 0).contains(c)
}

/// One envelope lies inside another.
pub open spec fn env_inside(a: Rect, b: Rect) -> bool {
    &&& env_min_x(b) <= env_min_x(a)
    &&& env_max_x(a) <= env_max_x(b)
    &&& env_min_y(b) <= env_min_y(a)
    &&& env_max_y(a) <= env_max_y(b)
}

/// Every entry of a branch child sits inside that child's rectangle,
/// recursively: the invariant that makes pruning by child rectangles sound.
pub open spec fn well_placed(
    c: GridChunk,
    cell: Rect,
    tracks: Seq<EnityTrack>,
    space: u128,
    depth: int,
) -> bool
    decreases c, 0int,
{
    match c {
        GridChunk::Grid(children, _) => forall|i: int|
            0 <= i < children@.len() ==> child_placed(
                #[trigger] children@[i],
                child_cell_of(cell, 3, GRID_SUB_SIZE as int, i),
                tracks,
                space,
                1,
            ),
        GridChunk::SubGrid(children, _) => forall|i: int|
            0 <= i < children@.len() ==> child_placed(
                #[trigger] children@[i],
                child_cell_of(cell, 2, GRID_BLOCK_SIZE as int, i),
                tracks,
                space,
                2,
            ),
        GridChunk::Block(_) => true,
    }
}

/// A child subtree holds only entries whose placement envelope lies inside
/// its rectangle, recursively.
pub open spec fn child_placed(
    c: GridChunk,
    cell: Rect,
    tracks: Seq<EnityTrack>,
    space: u128,
    depth: int,
) -> bool
    decreases c, 1int,
{
    &&& forall|d: u64|
        #[trigger] chunk_has(c, d) ==> (d as int) < tracks.len() && env_inside(
            view_env(tracks[d as int], space),
            cell,
        )
    &&& well_placed(c, cell, tracks, space, depth)
}

/// Whether the subtree stores the identifier.
pub open spec fn chunk_has(c: GridChunk, d: u64) -> bool
    decreases c,
{
    match c {
        GridChunk::Grid(children, list) => list@.contains(d) || (exists|i: int|
            0 <= i < children@.len() && chunk_has(#[trigger] children@[i], d)),
        GridChunk::SubGrid(children, list) => list@.contains(d) || (exists|i: int|
            0 <= i < children@.len() && chunk_has(#[trigger] children@[i], d)),
        GridChunk::Block(list) => list@.contains(d),
    }
}

impl GridChunk {
    /// Insert an entry at the root of this subtree, which covers `cell`.
    pub fn insert(self, tracks: &Vec<EnityTrack>, space: u128, enity: u64, cell: &Rect) -> (r:
        GridChunk)
        requires
            chunk_wf(self, 0),
            chunk_ids_valid(self, tracks@.len() as int),
            (enity as int) < tracks@.len(),
            forall|i: int| 0 <= i < tracks@.len() ==> track_wf(#[trigger] tracks@[i]),
            rect_ok(*cell),
            crate::vector::bounded_by(cell.position, 6 * POS_LIMIT),
            0 <= cell.size.0 <= GRID_SIZE_L,
            0 <= cell.size.1 <= GRID_SIZE_L,
        ensures
            chunk_wf(r, 0),
            chunk_ids_valid(r, tracks@.len() as int),
            forall|d: u64| chunk_has(r, d) <==> (chunk_has(self, d) || d == enity),
            insert_shape_ok(self, r, tracks@[enity as int], space, enity, *cell, 0),
            well_placed(self, *cell, tracks@, space, 0) ==> well_placed(
                r,
                *cell,
                tracks@,
                space,
                0,
            ),
    {
        let r = insert_node(self, tracks, space, enity, cell, 0);
        proof {
            assert forall|d: u64| #[trigger] chunk_has(r, d) implies (d as int) < tracks@.len() by {
                if d != enity {
                    assert(chunk_has(self, d));
                }
            }
        }
        r
    }

    /// Drop every entry of the subtree; reports whether it was already empty.
    pub fn clear(self) -> (r: (GridChunk, bool))
        requires
            chunk_wf(self, 0),
        ensures
            forall|d: u64| !chunk_has(r.0, d),
            chunk_wf(r.0, 0),
            same_shape(self, r.0),
            r.1 <==> (forall|d: u64| !chunk_has(self, d)),
    {
        clear_node(self, 0)
    }

    /// Exactly what a query collects from this subtree, in slot order: the
    /// node's overflow list, then each child whose cell rectangle overlaps
    /// the query envelope, recursively. Every returned entry is stored here.
    pub fn collect(&self, query: &Rect, cell: &Rect) -> (r: Vec<u64>)
        requires
            chunk_wf(*self, 0),
            rect_ok(*query),
            rect_ok(*cell),
            crate::vector::bounded_by(cell.position, 6 * POS_LIMIT),
            0 <= cell.size.0 <= GRID_SIZE_L,
            0 <= cell.size.1 <= GRID_SIZE_L,
        ensures
            r@ == collect_spec(*self, *query, *cell, 0),
            forall|k: int| 0 <= k < r@.len() ==> chunk_has(*self, #[trigger] r@[k]),
    {
        collect_node(self, query, cell, 0)
    }
}

impl Default for GridChunk {
    /// A fresh node: an empty flat block.
    fn default() -> (r: GridChunk)
        ensures
            r matches GridChunk::Block(list) && list@.len() == 0,
            chunk_wf(r, 0),
            forall|d: u64| !chunk_has(r, d),
    {
        GridChunk::Block(Vec::new())
    }
}

/// The child slot of a point inside a branch whose low corner is `base`,
/// with `size`-wide children: the flooring cell index relative to `base`.
/// A point outside the parent yields an out-of-range index, which
/// `single_cell` rejects.
fn chunk_place(point: Vector, base: Vector, size: i64) -> (r: (i64, i64))
    requires
        0 < size <= GRID_SIZE_L,
        crate::vector::bounded_by(point, 8 * POS_LIMIT),
        crate::vector::bounded_by(base, 7 * POS_LIMIT),
    ensures
        (r.0 as int, r.1 as int) == place_of(
            point.0 as int,
            point.1 as int,
            (base.0 as int, base.1 as int),
            size as int,
        ),
{
    let dx = point.0 - base.0;
    let dy = point.1 - base.1;
    proof {
        crate::num::lemma_div_floor_bounds(dx as int, size as int);
        crate::num::lemma_div_floor_bounds(dy as int, size as int);
        assert(dx > i64::MIN + size && dy > i64::MIN + size);
    }
    let px = div_floor(dx, size);
    let py = div_floor(dy, size);
    (px, py)
}

/// The four corners of the entity's placement envelope, via its world
/// renderable boxes.
fn entity_points(tracks: &Vec<EnityTrack>, space: u128, enity: u64) -> (r: Vec<Vector>)
    requires
        (enity as int) < tracks@.len(),
        track_wf(tracks@[enity as int]),
    ensures
        r@.len() == 4,
        forall|k: int| 0 <= k < 4 ==> crate::vector::bounded_by(#[trigger] r@[k], 8 * POS_LIMIT),
        forall|k: int|
            0 <= k < 4 ==> ((#[trigger] r@[k]).0 as int, r@[k].1 as int) == crate::rect::corner_spec(
                view_env(tracks@[enity as int], space),
                k,
            ),
{
    let n_tracks = tracks.len();
    proof {
        assert((enity as usize) as int == enity as int);
    }
    let env = tracks[enity as usize].viewbox(space);
    proof {
        assert(crate::vector::bounded_by(env.position, 4 * POS_LIMIT));
        assert(crate::vector::bounded_by(env.size, 4 * POS_LIMIT));
        lemma_env_points_bound(env);
    }
    let pts = env.points();
    let mut out: Vec<Vector> = Vec::new();
    let mut k: usize = 0;
    while k < 4
        invariant
            k <= 4,
            pts@.len() == 4,
            out@.len() == k,
            rect_ok(env),
            env == view_env(tracks@[enity as int], space),
            crate::vector::bounded_by(env.position, 4 * POS_LIMIT),
            crate::vector::bounded_by(env.size, 4 * POS_LIMIT),
            forall|j: int|
                0 <= j < 4 ==> ((#[trigger] pts@[j]).0 as int, pts@[j].1 as int)
                    == crate::rect::corner_spec(env, j),
            forall|j: int|
                0 <= j < k ==> crate::vector::bounded_by(#[trigger] out@[j], 8 * POS_LIMIT),
            forall|j: int|
                0 <= j < k ==> ((#[trigger] out@[j]).0 as int, out@[j].1 as int)
                    == crate::rect::corner_spec(env, j),
        decreases 4 - k,
    {
        let p = pts[k];
        proof {
            lemma_env_points_bound(env);
            assert((p.0 as int, p.1 as int) == crate::rect::corner_spec(env, k as int));
        }
        out.push(p);
        k = k + 1;
    }
    out
}

/// The corners of a rectangle within the envelope bounds stay within twice
/// those bounds.
proof fn lemma_env_points_bound(env: Rect)
    requires
        rect_ok(env),
        crate::vector::bounded_by(env.position, 4 * POS_LIMIT),
        crate::vector::bounded_by(env.size, 4 * POS_LIMIT),
    ensures
        forall|j: int|
            0 <= j < 4 ==> -(8 * POS_LIMIT) <= (#[trigger] crate::rect::corner_spec(env, j)).0 <= 8
                * POS_LIMIT && -(8 * POS_LIMIT) <= crate::rect::corner_spec(env, j).1 <= 8
                * POS_LIMIT,
{
    crate::num::lemma_div_t_bound(env.size.0 as int, 2 * POS_LIMIT as int, 2);
    crate::num::lemma_div_t_bound(env.size.1 as int, 2 * POS_LIMIT as int, 2);
    let hx = crate::rect::half_x(env);
    let hy = crate::rect::half_y(env);
    crate::rotation::lemma_rotate_pair_bound(hx, hy, env.angle, 2 * POS_LIMIT as int);
    crate::rotation::lemma_rotate_pair_bound(-hx, hy, env.angle, 2 * POS_LIMIT as int);
    crate::rotation::lemma_rotate_pair_bound(hx, -hy, env.angle, 2 * POS_LIMIT as int);
    crate::rotation::lemma_rotate_pair_bound(-hx, -hy, env.angle, 2 * POS_LIMIT as int);
    assert forall|j: int|
        0 <= j < 4 implies -(8 * POS_LIMIT) <= (#[trigger] crate::rect::corner_spec(env, j)).0 <= 8
        * POS_LIMIT && -(8 * POS_LIMIT) <= crate::rect::corner_spec(env, j).1 <= 8 * POS_LIMIT by {
        if j == 0 {
            assert(crate::rect::corner_local(env, j) == (-hx, hy));
        } else if j == 1 {
            assert(crate::rect::corner_local(env, j) == (hx, hy));
        } else if j == 2 {
            assert(crate::rect::corner_local(env, j) == (hx, -hy));
        } else {
            assert(crate::rect::corner_local(env, j) == (-hx, -hy));
        }
    }
}

/// Whether all four points fall in one in-range child cell of the branch
/// whose low corner is `base`; returns the slot if so.
fn single_cell(points: &Vec<Vector>, base: Vector, width: u64, size: i64) -> (r: Option<
    (u64, u64),
>)
    requires
        0 < size <= GRID_SIZE_L,
        0 < width <= 3,
        points@.len() == 4,
        forall|k: int| 0 <= k < 4 ==> crate::vector::bounded_by(#[trigger] points@[k], 8 * POS_LIMIT),
        crate::vector::bounded_by(base, 7 * POS_LIMIT),
    ensures
        r matches Some(c) ==> c.0 < width && c.1 < width,
        (r matches Some(_)) <==> ((forall|k: int|
            0 <= k < 4 ==> place_of(
                (#[trigger] points@[k]).0 as int,
                points@[k].1 as int,
                (base.0 as int, base.1 as int),
                size as int,
            ) == place_of(
                points@[0].0 as int,
                points@[0].1 as int,
                (base.0 as int, base.1 as int),
                size as int,
            )) && 0 <= place_of(
            points@[0].0 as int,
            points@[0].1 as int,
            (base.0 as int, base.1 as int),
            size as int,
        ).0 < width && 0 <= place_of(
            points@[0].0 as int,
            points@[0].1 as int,
            (base.0 as int, base.1 as int),
            size as int,
        ).1 < width),
        r matches Some(c) ==> (c.0 as int, c.1 as int) == place_of(
            points@[0].0 as int,
            points@[0].1 as int,
            (base.0 as int, base.1 as int),
            size as int,
        ),
{
    let first = chunk_place(points[0], base, size);
    if !(0 <= first.0 && first.0 < width as i64 && 0 <= first.1 && first.1 < width as i64) {
        return None;
    }
    let mut k: usize = 1;
    while k < 4
        invariant
            1 <= k <= 4,
            points@.len() == 4,
            0 < size <= GRID_SIZE_L,
            0 < width <= 3,
            forall|j: int|
                0 <= j < 4 ==> crate::vector::bounded_by(#[trigger] points@[j], 8 * POS_LIMIT),
            crate::vector::bounded_by(base, 7 * POS_LIMIT),
            0 <= first.0 < width && 0 <= first.1 < width,
            (first.0 as int, first.1 as int) == place_of(
                points@[0].0 as int,
                points@[0].1 as int,
                (base.0 as int, base.1 as int),
                size as int,
            ),
            forall|j: int|
                0 <= j < k ==> place_of(
                    (#[trigger] points@[j]).0 as int,
                    points@[j].1 as int,
                    (base.0 as int, base.1 as int),
                    size as int,
                ) == place_of(
                    points@[0].0 as int,
                    points@[0].1 as int,
                    (base.0 as int, base.1 as int),
                    size as int,
                ),
        decreases 4 - k,
    {
        let place = chunk_place(points[k], base, size);
        if place.0 != first.0 || place.1 != first.1 {
            proof {
                assert(place_of(
                    points@[k as int].0 as int,
                    points@[k as int].1 as int,
                    (base.0 as int, base.1 as int),
                    size as int,
                ) != place_of(
                    points@[0].0 as int,
                    points@[0].1 as int,
                    (base.0 as int, base.1 as int),
                    size as int,
                ));
            }
            return None;
        }
        k = k + 1;
    }
    Some((first.0 as u64, first.1 as u64))
}

/// The low corner of a cell, as exec values.
fn cell_base(cell: &Rect) -> (r: Vector)
    requires
        rect_ok(*cell),
        0 <= cell.size.0 <= GRID_SIZE_L,
        0 <= cell.size.1 <= GRID_SIZE_L,
        crate::vector::bounded_by(cell.position, 6 * POS_LIMIT + 30_000),
    ensures
        (r.0 as int, r.1 as int) == cell_low(*cell),
        crate::vector::bounded_by(r, 7 * POS_LIMIT),
{
    let hx = div_floor(cell.size.0, 2);
    let hy = div_floor(cell.size.1, 2);
    Vector(cell.position.0 - hx, cell.position.1 - hy)
}

/// The rectangle of child slot `(cx, cy)` of a branch over `cell`.
fn child_rect(cell: &Rect, width: i64, size: i64, cx: i64, cy: i64) -> (r: Rect)
    requires
        rect_ok(*cell),
        0 <= cell.size.0 <= GRID_SIZE_L,
        0 <= cell.size.1 <= GRID_SIZE_L,
        crate::vector::bounded_by(cell.position, 6 * POS_LIMIT + 30_000),
        0 < size <= GRID_SUB_SIZE,
        1 <= width <= 3,
        0 <= cx < width,
        0 <= cy < width,
    ensures
        r == child_cell_of(*cell, width as int, size as int, cx + cy * width),
        rect_ok(r),
        crate::vector::bounded_by(r.position, 6 * POS_LIMIT + 40_000),
        r.size.0 == size && r.size.1 == size,
{
    proof {
        assert((cx + cy * width) % (width as int) == cx as int && (cx + cy * width) / (
        width as int) == cy as int) by (nonlinear_arith)
            requires
                0 <= cx < width,
                0 <= cy < width,
                1 <= width <= 3,
        ;
    }
    proof {
        assert(0 <= cx * size <= 2 * GRID_SUB_SIZE && 0 <= cy * size <= 2 * GRID_SUB_SIZE)
            by (nonlinear_arith)
            requires
                0 <= cx < width,
                0 <= cy < width,
                width <= 3,
                0 < size <= GRID_SUB_SIZE,
        ;
    }
    let base = cell_base(cell);
    let half = div_floor(size, 2);
    let r = Rect::new(
        Vector(base.0 + cx * size + half, base.1 + cy * size + half),
        Vector(size, size),
    );
    proof {
        assert(r.position.0 as int == cell.position.0 - cell.size.0 as int / 2 + (cx as int)
            * (size as int) + size as int / 2);
        assert(r == child_cell_of(*cell, width as int, size as int, cx + cy * width));
    }
    r
}

/// Insert an entry into a subtree at the given depth: descend while the
/// entity fits one child cell, keep it in the overflow list otherwise, and
/// subdivide a block that passes its capacity for the remaining depth.
#[verifier::rlimit(100)]
#[verifier::spinoff_prover]
fn insert_node(
    chunk: GridChunk,
    tracks: &Vec<EnityTrack>,
    space: u128,
    enity: u64,
    cell: &Rect,
    depth: u8,
) -> (r: GridChunk)
    requires
        chunk_wf(chunk, depth as int),
        chunk_ids_valid(chunk, tracks@.len() as int),
        (enity as int) < tracks@.len(),
        forall|i: int| 0 <= i < tracks@.len() ==> track_wf(#[trigger] tracks@[i]),
        rect_ok(*cell),
        crate::vector::bounded_by(cell.position, 6 * POS_LIMIT + (depth as int) * 10_000),
        0 <= cell.size.0 <= GRID_SIZE_L,
        0 <= cell.size.1 <= GRID_SIZE_L,
    ensures
        chunk_wf(r, depth as int),
        forall|d: u64| chunk_has(r, d) <==> (chunk_has(chunk, d) || d == enity),
        chunk matches GridChunk::Grid(_, _) ==> r matches GridChunk::Grid(_, _),
        chunk matches GridChunk::SubGrid(_, _) ==> r matches GridChunk::SubGrid(_, _),
        insert_shape_ok(chunk, r, tracks@[enity as int], space, enity, *cell, depth as int),
        well_placed(chunk, *cell, tracks@, space, depth as int) ==> well_placed(
            r,
            *cell,
            tracks@,
            space,
            depth as int,
        ),
    decreases (2 - depth) * 2 + (if chunk matches GridChunk::Block(_) { 1int } else { 0int }),
{
    match chunk {
        GridChunk::Grid(children, list) => {
            let points = entity_points(tracks, space, enity);
            let base = cell_base(cell);
            let slot = single_cell(&points, base, 3, GRID_SUB_SIZE);
            match slot {
                Some((cx, cy)) => {
                    let idx = (cx + cy * 3) as usize;
                    proof {
                        assert(idx < 9);
                        lemma_placement_matches(
                            tracks@[enity as int],
                            space,
                            points@,
                            *cell,
                            3,
                            GRID_SUB_SIZE as int,
                        );
                        assert(placement_of(
                            tracks@[enity as int],
                            space,
                            *cell,
                            3,
                            GRID_SUB_SIZE as int,
                        ) == Some((cx as int, cy as int)));
                    }
                    let mut kids = children;
                    let ghost kids0 = kids@;
                    let child = kids.remove(idx);
                    proof {
                        assert(child == kids0[idx as int]);
                        assert forall|d: u64| #[trigger] chunk_has(child, d) implies (d as int)
                            < tracks@.len() by {
                            assert(chunk_has(chunk, d));
                        }
                    }
                    let sub = child_rect(cell, 3, GRID_SUB_SIZE, cx as i64, cy as i64);
                    let newchild = insert_node(child, tracks, space, enity, &sub, 1);
                    kids.insert(idx, newchild);
                    proof {
                        assert(kids@ =~= kids0.update(idx as int, newchild));
                        lemma_branch_update(kids0, kids@, idx as int, list@, enity, 1);
                    }
                    let ghost list_v = list@;
                    let built = GridChunk::Grid(kids, list);
                    proof {
                        assert(built matches GridChunk::Grid(_, _));
                        lemma_grid_has_unfold(built, kids@, list_v);
                        lemma_grid_has_unfold(chunk, kids0, list_v);
                        if well_placed(chunk, *cell, tracks@, space, depth as int) {
                            assert(sub == child_cell_of(*cell, 3, GRID_SUB_SIZE as int, idx as int));
                            lemma_descend_well_placed(
                                chunk,
                                built,
                                kids0,
                                kids@,
                                newchild,
                                idx as int,
                                tracks@,
                                space,
                                *cell,
                                3,
                                GRID_SUB_SIZE as int,
                                enity,
                                depth as int,
                                1,
                            );
                        }
                    }
                    built
                },
                None => {
                    proof {
                        lemma_placement_matches(
                            tracks@[enity as int],
                            space,
                            points@,
                            *cell,
                            3,
                            GRID_SUB_SIZE as int,
                        );
                        assert(placement_of(
                            tracks@[enity as int],
                            space,
                            *cell,
                            3,
                            GRID_SUB_SIZE as int,
                        ) is None);
                    }
                    let mut l = list;
                    let ghost l0 = l@;
                    l.push(enity);
                    proof {
                        lemma_push_contains(l0, l@, enity);
                    }
                    let ghost ch_v = children@;
                    let ghost l_v = l@;
                    let built = GridChunk::Grid(children, l);
                    proof {
                        lemma_grid_has_unfold(built, ch_v, l_v);
                        lemma_grid_has_unfold(chunk, ch_v, l0);
                        assert(forall|d: u64|
                            chunk_has(built, d) <==> (#[trigger] chunk_has(chunk, d) || d
                                == enity));
                    }
                    built
                },
            }
        },
        GridChunk::SubGrid(children, list) => {
            let points = entity_points(tracks, space, enity);
            let base = cell_base(cell);
            let slot = single_cell(&points, base, 2, GRID_BLOCK_SIZE);
            match slot {
                Some((cx, cy)) => {
                    let idx = (cx + cy * 2) as usize;
                    proof {
                        assert(idx < 4);
                        lemma_placement_matches(
                            tracks@[enity as int],
                            space,
                            points@,
                            *cell,
                            2,
                            GRID_BLOCK_SIZE as int,
                        );
                        assert(placement_of(
                            tracks@[enity as int],
                            space,
                            *cell,
                            2,
                            GRID_BLOCK_SIZE as int,
                        ) == Some((cx as int, cy as int)));
                    }
                    let mut kids = children;
                    let ghost kids0 = kids@;
                    let child = kids.remove(idx);
                    proof {
                        assert(child == kids0[idx as int]);
                        assert forall|d: u64| #[trigger] chunk_has(child, d) implies (d as int)
                            < tracks@.len() by {
                            assert(chunk_has(chunk, d));
                        }
                    }
                    let sub = child_rect(cell, 2, GRID_BLOCK_SIZE, cx as i64, cy as i64);
                    let newchild = insert_node(child, tracks, space, enity, &sub, 2);
                    kids.insert(idx, newchild);
                    proof {
                        assert(kids@ =~= kids0.update(idx as int, newchild));
                        lemma_branch_update(kids0, kids@, idx as int, list@, enity, 2);
                    }
                    let ghost list_v = list@;
                    let built = GridChunk::SubGrid(kids, list);
                    proof {
                        assert(built matches GridChunk::SubGrid(_, _));
                        lemma_grid_has_unfold(built, kids@, list_v);
                        lemma_grid_has_unfold(chunk, kids0, list_v);
                        if well_placed(chunk, *cell, tracks@, space, depth as int) {
                            assert(sub == child_cell_of(*cell, 2, GRID_BLOCK_SIZE as int, idx as int));
                            lemma_descend_well_placed(
                                chunk,
                                built,
                                kids0,
                                kids@,
                                newchild,
                                idx as int,
                                tracks@,
                                space,
                                *cell,
                                2,
                                GRID_BLOCK_SIZE as int,
                                enity,
                                depth as int,
                                2,
                            );
                        }
                    }
                    built
                },
                None => {
                    proof {
                        lemma_placement_matches(
                            tracks@[enity as int],
                            space,
                            points@,
                            *cell,
                            2,
                            GRID_BLOCK_SIZE as int,
                        );
                        assert(placement_of(
                            tracks@[enity as int],
                            space,
                            *cell,
                            2,
                            GRID_BLOCK_SIZE as int,
                        ) is None);
                    }
                    let mut l = list;
                    let ghost l0 = l@;
                    l.push(enity);
                    proof {
                        lemma_push_contains(l0, l@, enity);
                    }
                    let ghost ch_v = children@;
                    let ghost l_v = l@;
                    let built = GridChunk::SubGrid(children, l);
                    proof {
                        lemma_grid_has_unfold(built, ch_v, l_v);
                        lemma_grid_has_unfold(chunk, ch_v, l0);
                        assert(forall|d: u64|
                            chunk_has(built, d) <==> (#[trigger] chunk_has(chunk, d) || d
                                == enity));
                    }
                    built
                },
            }
        },
        GridChunk::Block(list) => {
            let cap = if depth < 2 {
                (2 - depth as usize) * GRID_CAPACITY
            } else {
                0
            };
            if depth < 2 && list.len() == cap {
                proof {
                    assert forall|k: int| 0 <= k < list@.len() implies (#[trigger] list@[k] as int)
                        < tracks@.len() by {
                        assert(list@.contains(list@[k]));
                        assert(chunk_has(chunk, list@[k]));
                    }
                }
                let mut target = if depth == 0 {
                    let mut kids: Vec<GridChunk> = Vec::new();
                    let mut i: usize = 0;
                    while i < 9
                        invariant
                            i <= 9,
                            kids@.len() == i,
                            forall|j: int|
                                0 <= j < i ==> chunk_wf(#[trigger] kids@[j], 1) && (forall|d: u64|
                                    !chunk_has(kids@[j], d)),
                        decreases 9 - i,
                    {
                        kids.push(GridChunk::Block(Vec::new()));
                        i = i + 1;
                    }
                    GridChunk::Grid(kids, Vec::new())
                } else {
                    let mut kids: Vec<GridChunk> = Vec::new();
                    let mut i: usize = 0;
                    while i < 4
                        invariant
                            i <= 4,
                            kids@.len() == i,
                            forall|j: int|
                                0 <= j < i ==> chunk_wf(#[trigger] kids@[j], 2) && (forall|d: u64|
                                    !chunk_has(kids@[j], d)),
                        decreases 4 - i,
                    {
                        kids.push(GridChunk::Block(Vec::new()));
                        i = i + 1;
                    }
                    GridChunk::SubGrid(kids, Vec::new())
                };
                proof {
                    assert(chunk_wf(target, depth as int));
                    assert(!(target matches GridChunk::Block(_)));
                    assert forall|d: u64| !(#[trigger] chunk_has(target, d)) by {
                        if chunk_has(target, d) {
                            match target {
                                GridChunk::Grid(ks, ll) => {
                                    assert(!ll@.contains(d));
                                    let i = choose|i: int|
                                        0 <= i < ks@.len() && chunk_has(#[trigger] ks@[i], d);
                                },
                                GridChunk::SubGrid(ks, ll) => {
                                    assert(!ll@.contains(d));
                                    let i = choose|i: int|
                                        0 <= i < ks@.len() && chunk_has(#[trigger] ks@[i], d);
                                },
                                GridChunk::Block(ll) => {},
                            }
                        }
                    }
                    lemma_empty_well_placed(target, *cell, tracks@, space, depth as int);
                }
                let n = list.len();
                let mut i: usize = 0;
                while i < n
                    invariant
                        i <= n,
                        n == list@.len(),
                        (enity as int) < tracks@.len(),
                        forall|ii: int| 0 <= ii < tracks@.len() ==> track_wf(#[trigger] tracks@[ii]),
                        depth < 2,
                        rect_ok(*cell),
                        crate::vector::bounded_by(cell.position, 6 * POS_LIMIT + (
                        depth as int) * 10_000),
                        0 <= cell.size.0 <= GRID_SIZE_L,
                        0 <= cell.size.1 <= GRID_SIZE_L,
                        chunk matches GridChunk::Block(_),
                        chunk_wf(target, depth as int),
                        well_placed(target, *cell, tracks@, space, depth as int),
                        !(target matches GridChunk::Block(_)),
                        forall|k: int|
                            0 <= k < list@.len() ==> (#[trigger] list@[k] as int) < tracks@.len(),
                        forall|d: u64|
                            chunk_has(target, d) <==> list@.subrange(0, i as int).contains(d),
                    decreases n - i,
                {
                    let moved = list[i];
                    proof {
                        assert forall|d: u64| #[trigger] chunk_has(target, d) implies (d as int)
                            < tracks@.len() by {
                            let pre = list@.subrange(0, i as int);
                            let kk = choose|kk: int| 0 <= kk < pre.len() && pre[kk] == d;
                            assert(list@[kk] == d);
                        }
                    }
                    target = insert_node(target, tracks, space, moved, cell, depth);
                    proof {
                        assert(list@.subrange(0, (i + 1) as int) =~= list@.subrange(
                            0,
                            i as int,
                        ).push(moved));
                        assert forall|d: u64| #[trigger] chunk_has(target, d) implies list@.subrange(
                            0,
                            (i + 1) as int,
                        ).contains(d) by {
                            if d != moved {
                                let pre = list@.subrange(0, i as int);
                                let kk = choose|kk: int| 0 <= kk < pre.len() && pre[kk] == d;
                                assert(list@.subrange(0, (i + 1) as int)[kk] == d);
                            } else {
                                assert(list@.subrange(0, (i + 1) as int)[i as int] == d);
                            }
                        }
                        assert forall|d: u64|
                            list@.subrange(0, (i + 1) as int).contains(d) implies #[trigger] chunk_has(
                            target,
                            d,
                        ) by {
                            let kk = choose|kk: int|
                                0 <= kk < list@.subrange(0, (i + 1) as int).len() && (
                                #[trigger] list@.subrange(0, (i + 1) as int)[kk]) == d;
                            if kk < i {
                                assert(list@.subrange(0, i as int)[kk] == d);
                            }
                        }
                    }
                    i = i + 1;
                }
                proof {
                    assert(list@.subrange(0, n as int) =~= list@);
                    assert forall|d: u64| #[trigger] chunk_has(target, d) implies (d as int)
                        < tracks@.len() by {
                        let kk = choose|kk: int| 0 <= kk < list@.len() && list@[kk] == d;
                    }
                }
                proof {
                    assert(!(target matches GridChunk::Block(_)));
                }
                let out = insert_node(target, tracks, space, enity, cell, depth);
                proof {
                    assert forall|d: u64| #[trigger] chunk_has(out, d) <==> (chunk_has(chunk, d)
                        || d == enity) by {
                        assert(chunk_has(chunk, d) == list@.contains(d));
                    }
                }
                out
            } else {
                let mut l = list;
                let ghost l0 = l@;
                l.push(enity);
                proof {
                    lemma_push_contains(l0, l@, enity);
                }
                let built = GridChunk::Block(l);
                proof {
                    assert(forall|d: u64|
                        chunk_has(built, d) <==> (#[trigger] chunk_has(chunk, d) || d == enity));
                }
                built
            }
        },
    }
}

/// Replacing one child of a branch with a tree holding one extra entry
/// changes the branch's contents by exactly that entry.
proof fn lemma_branch_update(
    before: Seq<GridChunk>,
    after: Seq<GridChunk>,
    idx: int,
    list: Seq<u64>,
    enity: u64,
    child_depth: int,
)
    requires
        0 <= idx < before.len(),
        after.len() == before.len(),
        forall|j: int| 0 <= j < before.len() && j != idx ==> after[j] == before[j],
        forall|d: u64| chunk_has(after[idx], d) <==> (chunk_has(before[idx], d) || d == enity),
        forall|i: int| 0 <= i < before.len() ==> chunk_wf(#[trigger] before[i], child_depth),
        chunk_wf(after[idx], child_depth),
    ensures
        forall|i: int| 0 <= i < after.len() ==> chunk_wf(#[trigger] after[i], child_depth),
        forall|d: u64|
            (list.contains(d) || (exists|i: int|
                0 <= i < after.len() && chunk_has(#[trigger] after[i], d))) <==> ((list.contains(d)
                || (exists|i: int|
                0 <= i < before.len() && chunk_has(#[trigger] before[i], d))) || d == enity),
{
    assert forall|i: int| 0 <= i < after.len() implies chunk_wf(#[trigger] after[i], child_depth) by {
        if i != idx {
            assert(after[i] == before[i]);
        }
    }
    assert forall|d: u64|
        (list.contains(d) || (exists|i: int|
            0 <= i < after.len() && chunk_has(#[trigger] after[i], d))) implies ((list.contains(d)
            || (exists|i: int|
            0 <= i < before.len() && chunk_has(#[trigger] before[i], d))) || d == enity) by {
        if !list.contains(d) {
            let i = choose|i: int| 0 <= i < after.len() && chunk_has(#[trigger] after[i], d);
            if i != idx {
                assert(chunk_has(before[i], d));
            } else {
                if d != enity {
                    assert(chunk_has(before[idx], d));
                }
            }
        }
    }
    assert forall|d: u64|
        ((list.contains(d) || (exists|i: int|
            0 <= i < before.len() && chunk_has(#[trigger] before[i], d))) || d == enity) implies (
    list.contains(d) || (exists|i: int|
        0 <= i < after.len() && chunk_has(#[trigger] after[i], d))) by {
        if d == enity {
            assert(chunk_has(after[idx], d));
        } else if !list.contains(d) {
            let i = choose|i: int| 0 <= i < before.len() && chunk_has(#[trigger] before[i], d);
            if i != idx {
                assert(chunk_has(after[i], d));
            } else {
                assert(chunk_has(after[idx], d));
            }
        }
    }
}

/// The placement decision computed from an entity's four envelope corners
/// agrees with its spec-level placement.
proof fn lemma_placement_matches(
    t: EnityTrack,
    space: u128,
    points: Seq<Vector>,
    cell: Rect,
    width: int,
    size: int,
)
    requires
        points.len() == 4,
        forall|k: int|
            0 <= k < 4 ==> ((#[trigger] points[k]).0 as int, points[k].1 as int)
                == crate::rect::corner_spec(view_env(t, space), k),
    ensures
        (placement_of(t, space, cell, width, size) matches Some(_)) <==> ((forall|k: int|
            0 <= k < 4 ==> place_of(
                (#[trigger] points[k]).0 as int,
                points[k].1 as int,
                cell_low(cell),
                size,
            ) == place_of(points[0].0 as int, points[0].1 as int, cell_low(cell), size)) && 0
            <= place_of(points[0].0 as int, points[0].1 as int, cell_low(cell), size).0 < width
            && 0 <= place_of(points[0].0 as int, points[0].1 as int, cell_low(cell), size).1
            < width),
        placement_of(t, space, cell, width, size) matches Some(c) ==> c == place_of(
            points[0].0 as int,
            points[0].1 as int,
            cell_low(cell),
            size,
        ),
{
    let e = view_env(t, space);
    let low = cell_low(cell);
    assert(points[0].0 as int == crate::rect::corner_spec(e, 0).0 && points[0].1 as int
        == crate::rect::corner_spec(e, 0).1);
    assert(points[1].0 as int == crate::rect::corner_spec(e, 1).0 && points[1].1 as int
        == crate::rect::corner_spec(e, 1).1);
    assert(points[2].0 as int == crate::rect::corner_spec(e, 2).0 && points[2].1 as int
        == crate::rect::corner_spec(e, 2).1);
    assert(points[3].0 as int == crate::rect::corner_spec(e, 3).0 && points[3].1 as int
        == crate::rect::corner_spec(e, 3).1);
    assert forall|k: int|
        0 <= k < 4 implies place_of(
        (#[trigger] points[k]).0 as int,
        points[k].1 as int,
        low,
        size,
    ) == place_of(
        crate::rect::corner_spec(e, k).0,
        crate::rect::corner_spec(e, k).1,
        low,
        size,
    ) by {
        assert(points[k].0 as int == crate::rect::corner_spec(e, k).0);
        assert(points[k].1 as int == crate::rect::corner_spec(e, k).1);
    }
}

/// Spell out what a branch node stores, in terms of snapshots of its parts.
proof fn lemma_grid_has_unfold(c: GridChunk, ch: Seq<GridChunk>, l: Seq<u64>)
    requires
        (c matches GridChunk::Grid(cv, lv) && cv@ == ch && lv@ == l) || (c matches
            GridChunk::SubGrid(cv, lv) && cv@ == ch && lv@ == l),
    ensures
        forall|d: u64|
            #[trigger] chunk_has(c, d) == (l.contains(d) || (exists|ii: int|
                0 <= ii < ch.len() && chunk_has(#[trigger] ch[ii], d))),
{
    assert forall|d: u64|
        #[trigger] chunk_has(c, d) == (l.contains(d) || (exists|ii: int|
            0 <= ii < ch.len() && chunk_has(#[trigger] ch[ii], d))) by {
        match c {
            GridChunk::Grid(cv, lv) => {
                if chunk_has(c, d) && !l.contains(d) {
                    let ii = choose|ii: int|
                        0 <= ii < cv@.len() && chunk_has(#[trigger] cv@[ii], d);
                    assert(chunk_has(ch[ii], d));
                }
                if exists|ii: int| 0 <= ii < ch.len() && chunk_has(#[trigger] ch[ii], d) {
                    let ii = choose|ii: int|
                        0 <= ii < ch.len() && chunk_has(#[trigger] ch[ii], d);
                    assert(chunk_has(cv@[ii], d));
                }
            },
            GridChunk::SubGrid(cv, lv) => {
                if chunk_has(c, d) && !l.contains(d) {
                    let ii = choose|ii: int|
                        0 <= ii < cv@.len() && chunk_has(#[trigger] cv@[ii], d);
                    assert(chunk_has(ch[ii], d));
                }
                if exists|ii: int| 0 <= ii < ch.len() && chunk_has(#[trigger] ch[ii], d) {
                    let ii = choose|ii: int|
                        0 <= ii < ch.len() && chunk_has(#[trigger] ch[ii], d);
                    assert(chunk_has(cv@[ii], d));
                }
            },
            GridChunk::Block(_) => {},
        }
    }
}

/// Pushing onto a list adds exactly that entry to its contents.
proof fn lemma_push_contains(before: Seq<u64>, after: Seq<u64>, enity: u64)
    requires
        after == before.push(enity),
    ensures
        forall|d: u64| after.contains(d) <==> (before.contains(d) || d == enity),
{
    assert forall|d: u64| after.contains(d) implies (before.contains(d) || d == enity) by {
        let k = choose|k: int| 0 <= k < after.len() && after[k] == d;
        if k < before.len() {
            assert(before[k] == d);
        }
    }
    assert forall|d: u64| before.contains(d) || d == enity implies after.contains(d) by {
        if d == enity {
            assert(after[after.len() - 1] == d);
        } else {
            let k = choose|k: int| 0 <= k < before.len() && before[k] == d;
            assert(after[k] == d);
        }
    }
}

/// The flooring quotient brackets its argument.
proof fn lemma_floor_bracket(x: int, low: int, size: int)
    requires
        size > 0,
    ensures
        low + ((x - low) / size) * size <= x,
        x < low + ((x - low) / size + 1) * size,
{
    vstd::arithmetic::div_mod::lemma_fundamental_div_mod(x - low, size);
    vstd::arithmetic::div_mod::lemma_mod_bound(x - low, size);
    let q = (x - low) / size;
    assert((q + 1) * size == q * size + size) by (nonlinear_arith);
    assert(size * q == q * size) by (nonlinear_arith);
}

/// An entity that descends into a child slot has its whole placement
/// envelope inside that child's rectangle.
proof fn lemma_placement_inside(
    t: EnityTrack,
    space: u128,
    cell: Rect,
    width: int,
    size: int,
    c: (int, int),
)
    requires
        placement_of(t, space, cell, width, size) == Some(c),
        rect_ok(cell),
        crate::vector::bounded_by(cell.position, 6 * POS_LIMIT + 30_000),
        0 <= cell.size.0 <= GRID_SIZE_L,
        0 <= cell.size.1 <= GRID_SIZE_L,
        (width == 3 && size == GRID_SUB_SIZE as int) || (width == 2 && size
            == GRID_BLOCK_SIZE as int),
    ensures
        0 <= c.0 < width && 0 <= c.1 < width,
        env_inside(view_env(t, space), child_cell_of(cell, width, size, c.0 + c.1 * width)),
{
    let e = view_env(t, space);
    let low = cell_low(cell);
    let idx = c.0 + c.1 * width;
    assert(idx % width == c.0 && idx / width == c.1) by (nonlinear_arith)
        requires
            0 <= c.0 < width,
            0 <= c.1 < width,
            1 <= width <= 3,
            idx == c.0 + c.1 * width,
    ;
    let b = child_cell_of(cell, width, size, idx);
    assert(b.position.0 as int == low.0 + c.0 * size + size / 2);
    assert(b.position.1 as int == low.1 + c.1 * size + size / 2);
    assert forall|k: int| 0 <= k < 4 implies low.0 + c.0 * size <= (
    #[trigger] crate::rect::corner_spec(e, k)).0 < low.0 + (c.0 + 1) * size && low.1 + c.1 * size
        <= crate::rect::corner_spec(e, k).1 < low.1 + (c.1 + 1) * size by {
        let px = crate::rect::corner_spec(e, k).0;
        let py = crate::rect::corner_spec(e, k).1;
        assert(place_of(px, py, low, size) == c);
        lemma_floor_bracket(px, low.0, size);
        lemma_floor_bracket(py, low.1, size);
    }
    crate::hitbox::lemma_zero_rect_corners(b);
    assert(crate::rect::half_x(b) == size / 2 && crate::rect::half_y(b) == size / 2);
    assert((c.0 + 1) * size == c.0 * size + size) by (nonlinear_arith);
    assert((c.1 + 1) * size == c.1 * size + size) by (nonlinear_arith);
    assert(env_min_x(b) == low.0 + c.0 * size && env_max_x(b) == low.0 + c.0 * size + size);
    assert(env_min_y(b) == low.1 + c.1 * size && env_max_y(b) == low.1 + c.1 * size + size);
}

/// Replacing one child of a branch with its insertion result keeps the
/// branch well placed: the descending entity's envelope fits the child slot,
/// and everything else is untouched.
proof fn lemma_descend_well_placed(
    chunk: GridChunk,
    built: GridChunk,
    kids0: Seq<GridChunk>,
    kids: Seq<GridChunk>,
    newchild: GridChunk,
    idx: int,
    tracks: Seq<EnityTrack>,
    space: u128,
    cell: Rect,
    width: int,
    size: int,
    enity: u64,
    depth: int,
    child_depth: int,
)
    requires
        (chunk matches GridChunk::Grid(cv, _) && cv@ == kids0 && (built matches
            GridChunk::Grid(bv, _) && bv@ == kids) && width == 3 && size == GRID_SUB_SIZE as int
            && child_depth == 1) || (chunk matches GridChunk::SubGrid(cv, _) && cv@ == kids0 && (
        built matches GridChunk::SubGrid(bv, _) && bv@ == kids) && width == 2 && size
            == GRID_BLOCK_SIZE as int && child_depth == 2),
        kids.len() == kids0.len(),
        0 <= idx < kids0.len(),
        forall|j: int| 0 <= j < kids.len() && j != idx ==> kids[j] == kids0[j],
        kids[idx] == newchild,
        placement_of(tracks[enity as int], space, cell, width, size) matches Some(c) && idx == c.0
            + c.1 * width,
        rect_ok(cell),
        crate::vector::bounded_by(cell.position, 6 * POS_LIMIT + 30_000),
        0 <= cell.size.0 <= GRID_SIZE_L,
        0 <= cell.size.1 <= GRID_SIZE_L,
        (enity as int) < tracks.len(),
        well_placed(chunk, cell, tracks, space, depth),
        forall|d: u64|
            chunk_has(newchild, d) <==> (chunk_has(kids0[idx], d) || d == enity),
        well_placed(kids0[idx], child_cell_of(cell, width, size, idx), tracks, space, child_depth)
            ==> well_placed(
            newchild,
            child_cell_of(cell, width, size, idx),
            tracks,
            space,
            child_depth,
        ),
    ensures
        well_placed(built, cell, tracks, space, depth),
{
    let c = placement_of(tracks[enity as int], space, cell, width, size)->Some_0;
    lemma_placement_inside(tracks[enity as int], space, cell, width, size, c);
    let subc = child_cell_of(cell, width, size, idx);
    assert forall|i2: int| 0 <= i2 < kids.len() implies child_placed(
        #[trigger] kids[i2],
        child_cell_of(cell, width, size, i2),
        tracks,
        space,
        child_depth,
    ) by {
        assert(child_placed(kids0[i2], child_cell_of(cell, width, size, i2), tracks, space,
            child_depth));
        if i2 == idx {
            assert forall|d: u64| #[trigger] chunk_has(newchild, d) implies (d as int)
                < tracks.len() && env_inside(view_env(tracks[d as int], space), subc) by {
                if d != enity {
                    assert(chunk_has(kids0[i2], d));
                }
            }
            assert(well_placed(newchild, subc, tracks, space, child_depth));
        } else {
            assert(kids[i2] == kids0[i2]);
        }
    }
}

/// An empty subtree is well placed over any cell.
proof fn lemma_empty_well_placed(
    c: GridChunk,
    cell: Rect,
    tracks: Seq<EnityTrack>,
    space: u128,
    depth: int,
)
    requires
        forall|d: u64| !chunk_has(c, d),
    ensures
        well_placed(c, cell, tracks, space, depth),
    decreases c, 1int,
{
    match c {
        GridChunk::Grid(children, _) => {
            assert forall|i: int| 0 <= i < children@.len() implies child_placed(
                #[trigger] children@[i],
                child_cell_of(cell, 3, GRID_SUB_SIZE as int, i),
                tracks,
                space,
                1,
            ) by {
                assert forall|d: u64| !(#[trigger] chunk_has(children@[i], d)) by {
                    if chunk_has(children@[i], d) {
                        assert(chunk_has(c, d));
                    }
                }
                lemma_empty_well_placed(
                    children@[i],
                    child_cell_of(cell, 3, GRID_SUB_SIZE as int, i),
                    tracks,
                    space,
                    1,
                );
            }
        },
        GridChunk::SubGrid(children, _) => {
            assert forall|i: int| 0 <= i < children@.len() implies child_placed(
                #[trigger] children@[i],
                child_cell_of(cell, 2, GRID_BLOCK_SIZE as int, i),
                tracks,
                space,
                2,
            ) by {
                assert forall|d: u64| !(#[trigger] chunk_has(children@[i], d)) by {
                    if chunk_has(children@[i], d) {
                        assert(chunk_has(c, d));
                    }
                }
                lemma_empty_well_placed(
                    children@[i],
                    child_cell_of(cell, 2, GRID_BLOCK_SIZE as int, i),
                    tracks,
                    space,
                    2,
                );
            }
        },
        GridChunk::Block(_) => {},
    }
}

/// What one overlapping child's subtree collects is part of what the branch
/// collects.
proof fn lemma_collect_kids_one(
    children: Seq<GridChunk>,
    query: Rect,
    cell: Rect,
    width: int,
    size: int,
    depth: int,
    upto: int,
    i: int,
    d: u64,
)
    requires
        1 <= depth <= 2,
        0 <= i < upto <= children.len(),
        crate::rect::env_overlap(child_cell_of(cell, width, size, i), query),
        collect_spec(children[i], query, child_cell_of(cell, width, size, i), depth).contains(d),
    ensures
        collect_kids(children, query, cell, width, size, depth, upto).contains(d),
    decreases upto,
{
    reveal_with_fuel(collect_kids, 2);
    let prev = collect_kids(children, query, cell, width, size, depth, upto - 1);
    let sub = child_cell_of(cell, width, size, upto - 1);
    let whole = collect_kids(children, query, cell, width, size, depth, upto);
    if i == upto - 1 {
        let inner = collect_spec(children[i], query, sub, depth);
        assert(inner.contains(d));
        let k = choose|k: int| 0 <= k < inner.len() && inner[k] == d;
        assert(whole == prev + inner);
        assert(whole[prev.len() + k] == d);
        assert(whole.contains(d));
    } else {
        lemma_collect_kids_one(children, query, cell, width, size, depth, upto - 1, i, d);
        assert(prev.contains(d));
        let k = choose|k: int| 0 <= k < prev.len() && prev[k] == d;
        if crate::rect::env_overlap(sub, query) {
            let inner = collect_spec(children[upto - 1], query, sub, depth);
            assert(whole == prev + inner);
            assert(whole[k] == d);
            assert(whole.contains(d));
        } else {
            assert(whole == prev);
        }
    }
}

/// Pruning is sound: a well-placed subtree's collection includes every stored
/// entry whose placement envelope overlaps the query envelope.
pub proof fn lemma_collect_complete(
    c: GridChunk,
    query: Rect,
    cell: Rect,
    tracks: Seq<EnityTrack>,
    space: u128,
    depth: int,
    d: u64,
)
    requires
        0 <= depth <= 2,
        chunk_wf(c, depth),
        well_placed(c, cell, tracks, space, depth),
        chunk_has(c, d),
        crate::rect::env_overlap(view_env(tracks[d as int], space), query),
    ensures
        collect_spec(c, query, cell, depth).contains(d),
    decreases c,
{
    match c {
        GridChunk::Grid(children, list) => {
            let kids = collect_kids(
                children@,
                query,
                cell,
                3,
                GRID_SUB_SIZE as int,
                depth + 1,
                children@.len() as int,
            );
            if list@.contains(d) {
                let k = choose|k: int| 0 <= k < list@.len() && list@[k] == d;
                assert((list@ + kids)[k] == d);
            } else {
                let i = choose|i: int|
                    0 <= i < children@.len() && chunk_has(#[trigger] children@[i], d);
                let sub = child_cell_of(cell, 3, GRID_SUB_SIZE as int, i);
                assert(child_placed(children@[i], sub, tracks, space, 1));
                assert(env_inside(view_env(tracks[d as int], space), sub));
                assert(crate::rect::env_overlap(sub, query));
                lemma_collect_complete(children@[i], query, sub, tracks, space, 1, d);
                lemma_collect_kids_one(
                    children@,
                    query,
                    cell,
                    3,
                    GRID_SUB_SIZE as int,
                    1,
                    children@.len() as int,
                    i,
                    d,
                );
                let k = choose|k: int| 0 <= k < kids.len() && kids[k] == d;
                assert((list@ + kids)[list@.len() + k] == d);
            }
        },
        GridChunk::SubGrid(children, list) => {
            let kids = collect_kids(
                children@,
                query,
                cell,
                2,
                GRID_BLOCK_SIZE as int,
                depth + 1,
                children@.len() as int,
            );
            if list@.contains(d) {
                let k = choose|k: int| 0 <= k < list@.len() && list@[k] == d;
                assert((list@ + kids)[k] == d);
            } else {
                let i = choose|i: int|
                    0 <= i < children@.len() && chunk_has(#[trigger] children@[i], d);
                let sub = child_cell_of(cell, 2, GRID_BLOCK_SIZE as int, i);
                assert(child_placed(children@[i], sub, tracks, space, 2));
                assert(env_inside(view_env(tracks[d as int], space), sub));
                assert(crate::rect::env_overlap(sub, query));
                lemma_collect_complete(children@[i], query, sub, tracks, space, 2, d);
                lemma_collect_kids_one(
                    children@,
                    query,
                    cell,
                    2,
                    GRID_BLOCK_SIZE as int,
                    2,
                    children@.len() as int,
                    i,
                    d,
                );
                let k = choose|k: int| 0 <= k < kids.len() && kids[k] == d;
                assert((list@ + kids)[list@.len() + k] == d);
            }
        },
        GridChunk::Block(_) => {},
    }
}

/// Drop every entry of a subtree; reports whether it was already empty.
#[verifier::rlimit(100)]
#[verifier::spinoff_prover]
fn clear_node(chunk: GridChunk, depth: u8) -> (r: (GridChunk, bool))
    requires
        chunk_wf(chunk, depth as int),
    ensures
        forall|d: u64| !chunk_has(r.0, d),
        chunk_wf(r.0, depth as int),
        same_shape(chunk, r.0),
        r.1 <==> (forall|d: u64| !chunk_has(chunk, d)),
    decreases 3 - depth,
{
    match chunk {
        GridChunk::Grid(children, list) => {
            let was_empty = list.len() == 0;
            let mut kids: Vec<GridChunk> = Vec::new();
            let mut all_empty = was_empty;
            let n = children.len();
            let ghost ch0 = children@;
            let mut kids_in = children;
            let mut i: usize = 0;
            while i < n
                invariant
                    i <= n,
                    n == 9,
                    depth == 0,
                    ch0.len() == n,
                    kids_in@ =~= ch0.subrange(i as int, n as int),
                    kids@.len() == i,
                    was_empty <==> list@.len() == 0,
                    forall|j: int| 0 <= j < ch0.len() ==> chunk_wf(#[trigger] ch0[j], 1),
                    forall|j: int|
                        0 <= j < i ==> chunk_wf(#[trigger] kids@[j], 1) && (forall|d: u64|
                            !chunk_has(kids@[j], d)) && same_shape(ch0[j], kids@[j]),
                    all_empty <==> (was_empty && (forall|j: int, d: u64|
                        0 <= j < i ==> !(#[trigger] chunk_has(ch0[j], d)))),
                decreases n - i,
            {
                let child = kids_in.remove(0);
                proof {
                    assert(child == ch0[i as int]);
                    assert(kids_in@ =~= ch0.subrange((i + 1) as int, n as int));
                }
                let (cleared, empty) = clear_node(child, 1);
                all_empty = empty && was_empty && all_empty;
                kids.push(cleared);
                i = i + 1;
            }
            let cleared = GridChunk::Grid(kids, Vec::new());
            proof {
                assert forall|d: u64| !(#[trigger] chunk_has(cleared, d)) by {
                    if chunk_has(cleared, d) {
                        match cleared {
                            GridChunk::Grid(ks, ll) => {
                                assert(!ll@.contains(d));
                                let i = choose|i: int|
                                    0 <= i < ks@.len() && chunk_has(#[trigger] ks@[i], d);
                            },
                            GridChunk::SubGrid(ks, ll) => {},
                            GridChunk::Block(ll) => {},
                        }
                    }
                }
                assert(same_shape(chunk, cleared));
                assert forall|d: u64| chunk_has(chunk, d) implies !all_empty by {
                    if list@.contains(d) {
                        assert(list@.len() > 0);
                    } else {
                        let j = choose|j: int| 0 <= j < ch0.len() && chunk_has(#[trigger] ch0[j], d);
                    }
                }
                if !all_empty {
                    if !was_empty {
                        assert(list@.contains(list@[0]));
                        assert(chunk_has(chunk, list@[0]));
                    } else {
                        let (j, d) = choose|j: int, d: u64|
                            0 <= j < n && #[trigger] chunk_has(ch0[j], d);
                        assert(chunk_has(chunk, d));
                    }
                } else {
                    assert forall|d: u64| !(#[trigger] chunk_has(chunk, d)) by {
                        if chunk_has(chunk, d) {
                            if !list@.contains(d) {
                                let j = choose|j: int|
                                    0 <= j < ch0.len() && chunk_has(#[trigger] ch0[j], d);
                            }
                        }
                    }
                }
                assert(all_empty <==> (forall|d: u64| !chunk_has(chunk, d)));
            }
            (cleared, all_empty)
        },
        GridChunk::SubGrid(children, list) => {
            let was_empty = list.len() == 0;
            let mut kids: Vec<GridChunk> = Vec::new();
            let mut all_empty = was_empty;
            let n = children.len();
            let ghost ch0 = children@;
            let mut kids_in = children;
            let mut i: usize = 0;
            while i < n
                invariant
                    i <= n,
                    n == 4,
                    depth == 1,
                    ch0.len() == n,
                    kids_in@ =~= ch0.subrange(i as int, n as int),
                    kids@.len() == i,
                    was_empty <==> list@.len() == 0,
                    forall|j: int| 0 <= j < ch0.len() ==> chunk_wf(#[trigger] ch0[j], 2),
                    forall|j: int|
                        0 <= j < i ==> chunk_wf(#[trigger] kids@[j], 2) && (forall|d: u64|
                            !chunk_has(kids@[j], d)) && same_shape(ch0[j], kids@[j]),
                    all_empty <==> (was_empty && (forall|j: int, d: u64|
                        0 <= j < i ==> !(#[trigger] chunk_has(ch0[j], d)))),
                decreases n - i,
            {
                let child = kids_in.remove(0);
                proof {
                    assert(child == ch0[i as int]);
                    assert(kids_in@ =~= ch0.subrange((i + 1) as int, n as int));
                }
                let (cleared, empty) = clear_node(child, 2);
                all_empty = empty && was_empty && all_empty;
                kids.push(cleared);
                i = i + 1;
            }
            let cleared = GridChunk::SubGrid(kids, Vec::new());
            proof {
                assert forall|d: u64| !(#[trigger] chunk_has(cleared, d)) by {
                    if chunk_has(cleared, d) {
                        match cleared {
                            GridChunk::SubGrid(ks, ll) => {
                                assert(!ll@.contains(d));
                                let i = choose|i: int|
                                    0 <= i < ks@.len() && chunk_has(#[trigger] ks@[i], d);
                            },
                            GridChunk::Grid(ks, ll) => {},
                            GridChunk::Block(ll) => {},
                        }
                    }
                }
                assert(same_shape(chunk, cleared));
                assert forall|d: u64| chunk_has(chunk, d) implies !all_empty by {
                    if list@.contains(d) {
                        assert(list@.len() > 0);
                    } else {
                        let j = choose|j: int| 0 <= j < ch0.len() && chunk_has(#[trigger] ch0[j], d);
                    }
                }
                if !all_empty {
                    if !was_empty {
                        assert(list@.contains(list@[0]));
                        assert(chunk_has(chunk, list@[0]));
                    } else {
                        let (j, d) = choose|j: int, d: u64|
                            0 <= j < n && #[trigger] chunk_has(ch0[j], d);
                        assert(chunk_has(chunk, d));
                    }
                } else {
                    assert forall|d: u64| !(#[trigger] chunk_has(chunk, d)) by {
                        if chunk_has(chunk, d) {
                            if !list@.contains(d) {
                                let j = choose|j: int|
                                    0 <= j < ch0.len() && chunk_has(#[trigger] ch0[j], d);
                            }
                        }
                    }
                }
                assert(all_empty <==> (forall|d: u64| !chunk_has(chunk, d)));
            }
            (cleared, all_empty)
        },
        GridChunk::Block(list) => {
            let was_empty = list.len() == 0;
            proof {
                if !was_empty {
                    assert(list@.contains(list@[0]));
                    assert(chunk_has(chunk, list@[0]));
                }
                assert(was_empty <==> (forall|d: u64| !chunk_has(chunk, d)));
            }
            (GridChunk::Block(Vec::new()), was_empty)
        },
    }
}

/// Collect the subtree's entries for a query: the node's overflow list, plus
/// every child whose cell rectangle overlaps the query envelope.
#[verifier::rlimit(100)]
#[verifier::spinoff_prover]
fn collect_node(chunk: &GridChunk, query: &Rect, cell: &Rect, depth: u8) -> (r: Vec<u64>)
    requires
        chunk_wf(*chunk, depth as int),
        rect_ok(*query),
        rect_ok(*cell),
        crate::vector::bounded_by(cell.position, 6 * POS_LIMIT + (depth as int) * 10_000),
        0 <= cell.size.0 <= GRID_SIZE_L,
        0 <= cell.size.1 <= GRID_SIZE_L,
    ensures
        r@ == collect_spec(*chunk, *query, *cell, depth as int),
        forall|k: int| 0 <= k < r@.len() ==> chunk_has(*chunk, #[trigger] r@[k]),
    decreases 3 - depth, 1int,
{
    let mut out: Vec<u64> = Vec::new();
    match chunk {
        GridChunk::Grid(children, list) => {
            append_list(&mut out, list);
            proof {
                assert(out@ =~= list@);
                assert(forall|k: int|
                    0 <= k < out@.len() ==> chunk_has(*chunk, #[trigger] out@[k]));
            }
            collect_children(&mut out, chunk, children, query, cell, 3, GRID_SUB_SIZE, 1);
            proof {
                assert(depth == 0);
                assert(out@ =~= collect_spec(*chunk, *query, *cell, depth as int));
            }
        },
        GridChunk::SubGrid(children, list) => {
            append_list(&mut out, list);
            proof {
                assert(out@ =~= list@);
                assert(forall|k: int|
                    0 <= k < out@.len() ==> chunk_has(*chunk, #[trigger] out@[k]));
            }
            collect_children(&mut out, chunk, children, query, cell, 2, GRID_BLOCK_SIZE, 2);
            proof {
                assert(depth == 1);
                assert(out@ =~= collect_spec(*chunk, *query, *cell, depth as int));
            }
        },
        GridChunk::Block(list) => {
            append_list(&mut out, list);
            proof {
                assert(out@ =~= collect_spec(*chunk, *query, *cell, depth as int));
            }
        },
    }
    out
}

/// Append a whole entry list.
fn append_list(out: &mut Vec<u64>, list: &Vec<u64>)
    ensures
        final(out)@ == old(out)@ + list@,
{
    let n = list.len();
    let mut i: usize = 0;
    while i < n
        invariant
            i <= n,
            n == list@.len(),
            out@ == old(out)@ + list@.subrange(0, i as int),
        decreases n - i,
    {
        out.push(list[i]);
        proof {
            assert(out@ =~= old(out)@ + list@.subrange(0, (i + 1) as int));
        }
        i = i + 1;
    }
    proof {
        assert(list@.subrange(0, n as int) =~= list@);
    }
}

/// Descend into each child whose cell rectangle overlaps the query envelope.
#[verifier::rlimit(100)]
#[verifier::spinoff_prover]
fn collect_children(
    out: &mut Vec<u64>,
    parent: &GridChunk,
    children: &Vec<GridChunk>,
    query: &Rect,
    cell: &Rect,
    width: u64,
    size: i64,
    child_depth: u8,
)
    requires
        rect_ok(*query),
        rect_ok(*cell),
        crate::vector::bounded_by(cell.position, 6 * POS_LIMIT + ((child_depth - 1) as int) * 10_000),
        0 <= cell.size.0 <= GRID_SIZE_L,
        0 <= cell.size.1 <= GRID_SIZE_L,
        1 <= child_depth <= 2,
        0 < size <= GRID_SUB_SIZE,
        width == 3 || width == 2,
        children@.len() == width * width,
        forall|j: int|
            0 <= j < children@.len() ==> chunk_wf(#[trigger] children@[j], child_depth as int),
        forall|j: int, d: u64|
            0 <= j < children@.len() && #[trigger] chunk_has(children@[j], d) ==> chunk_has(
                *parent,
                d,
            ),
        forall|k: int| 0 <= k < old(out)@.len() ==> chunk_has(*parent, #[trigger] old(out)@[k]),
    ensures
        final(out)@ == old(out)@ + collect_kids(
            children@,
            *query,
            *cell,
            width as int,
            size as int,
            child_depth as int,
            children@.len() as int,
        ),
        forall|k: int| 0 <= k < final(out)@.len() ==> chunk_has(*parent, #[trigger] final(out)@[k]),
    decreases 3 - child_depth, 2int,
{
    proof {
        crate::num::lemma_div_floor_bounds(cell.size.0 as int, 2);
        crate::num::lemma_div_floor_bounds(cell.size.1 as int, 2);
        crate::num::lemma_div_floor_bounds(GRID_SUB_SIZE as int, 2);
    }
    let half = div_floor(cell.size.0, 2);
    let base_x = cell.position.0 - half;
    let half_y = div_floor(cell.size.1, 2);
    let base_y = cell.position.1 - half_y;
    let n = children.len();
    let mut i: usize = 0;
    while i < n
        invariant
            i <= n,
            n == children@.len(),
            rect_ok(*query),
            1 <= child_depth <= 2,
            0 < size <= GRID_SUB_SIZE,
            width == 3 || width == 2,
            n == width * width,
            -(6 * POS_LIMIT + ((child_depth - 1) as int) * 10_000 + 600) <= base_x <= 6
                * POS_LIMIT + ((child_depth - 1) as int) * 10_000 + 600,
            -(6 * POS_LIMIT + ((child_depth - 1) as int) * 10_000 + 600) <= base_y <= 6
                * POS_LIMIT + ((child_depth - 1) as int) * 10_000 + 600,
            crate::vector::bounded_by(cell.position, 6 * POS_LIMIT + ((child_depth - 1) as int)
                * 10_000),
            forall|j: int|
                0 <= j < children@.len() ==> chunk_wf(#[trigger] children@[j], child_depth as int),
            forall|j: int, d: u64|
                0 <= j < children@.len() && #[trigger] chunk_has(children@[j], d) ==> chunk_has(
                    *parent,
                    d,
                ),
            forall|k: int| 0 <= k < out@.len() ==> chunk_has(*parent, #[trigger] out@[k]),
            out@ == old(out)@ + collect_kids(
                children@,
                *query,
                *cell,
                width as int,
                size as int,
                child_depth as int,
                i as int,
            ),
            half == cell.size.0 as int / 2,
            half_y == cell.size.1 as int / 2,
            base_x == cell.position.0 - half,
            base_y == cell.position.1 - half_y,
        decreases n - i,
    {
        let col = (i as u64 % width) as i64;
        let row = (i as u64 / width) as i64;
        proof {
            assert(0 <= col < width as int);
            if width == 3 {
                vstd::arithmetic::div_mod::lemma_div_is_ordered(i as int, 8, 3);
                assert(8int / 3 == 2);
            } else {
                vstd::arithmetic::div_mod::lemma_div_is_ordered(i as int, 3, 2);
                assert(3int / 2 == 1);
            }
            assert(0 <= row < width as int);
            assert(0 <= col * size <= 3 * GRID_SIZE_L && 0 <= row * size <= 3 * GRID_SIZE_L)
                by (nonlinear_arith)
                requires
                    0 <= col <= 2,
                    0 <= row <= 2,
                    0 < size <= GRID_SIZE_L,
                    GRID_SIZE_L == 1200i64,
            ;
            crate::num::lemma_div_floor_bounds(size as int, 2);
        }
        let cx = base_x + col * size + div_floor(size, 2);
        let cy = base_y + row * size + div_floor(size, 2);
        let child_cell = Rect {
            position: Vector(cx, cy),
            size: Vector(size, size),
            angle: Rotor { c: crate::num::ROT_ONE, s: 0 },
        };
        proof {
            assert(rect_ok(child_cell));
            assert(crate::vector::bounded_by(child_cell.position, 6 * POS_LIMIT + (
            child_depth as int) * 10_000));
            assert(col == (i as int) % (width as int));
            assert(row == (i as int) / (width as int));
            assert(child_cell == child_cell_of(*cell, width as int, size as int, i as int));
        }
        if child_cell.envelope_collision(query) {
            let sub = collect_node(&children[i], query, &child_cell, child_depth);
            let ghost out0 = out@;
            append_list(out, &sub);
            proof {
                assert(collect_kids(
                    children@,
                    *query,
                    *cell,
                    width as int,
                    size as int,
                    child_depth as int,
                    (i + 1) as int,
                ) =~= collect_kids(
                    children@,
                    *query,
                    *cell,
                    width as int,
                    size as int,
                    child_depth as int,
                    i as int,
                ) + collect_spec(children@[i as int], *query, child_cell, child_depth as int));
                assert(out@ =~= old(out)@ + collect_kids(
                    children@,
                    *query,
                    *cell,
                    width as int,
                    size as int,
                    child_depth as int,
                    (i + 1) as int,
                ));
            }
            proof {
                assert forall|k: int| 0 <= k < out@.len() implies chunk_has(
                    *parent,
                    #[trigger] out@[k],
                ) by {
                    if k < out0.len() {
                        assert(out@[k] == out0[k]);
                    } else {
                        assert(out@[k] == sub@[k - out0.len()]);
                        assert(chunk_has(children@[i as int], out@[k]));
                    }
                }
            }
        } else {
            proof {
                assert(collect_kids(
                    children@,
                    *query,
                    *cell,
                    width as int,
                    size as int,
                    child_depth as int,
                    (i + 1) as int,
                ) =~= collect_kids(
                    children@,
                    *query,
                    *cell,
                    width as int,
                    size as int,
                    child_depth as int,
                    i as int,
                ));
            }
        }
        i = i + 1;
    }
}


/// The adaptive index root: one subdivision tree per coarse cell, keyed by
/// integer cell coordinates, in insertion order with unique keys.
pub struct Grid {
    pub chunks: Vec<((i64, i64), GridChunk)>,
}

/// The root stores the identifier in some cell's tree.
pub open spec fn grid_has(g: Grid, d: u64) -> bool {
    exists|i: int| 0 <= i < g.chunks@.len() && chunk_has((#[trigger] g.chunks@[i]).1, d)
}

/// Some entry under this root-cell key stores the identifier.
pub open spec fn cell_entry_has(g: Grid, k: (i64, i64), d: u64) -> bool {
    exists|i: int|
        0 <= i < g.chunks@.len() && (#[trigger] g.chunks@[i]).0 == k && chunk_has(
            g.chunks@[i].1,
            d,
        )
}

/// Every cell tree is well placed over its root-cell rectangle.
pub open spec fn grid_placed(g: Grid, tracks: Seq<EnityTrack>, space: u128) -> bool {
    forall|i: int|
        0 <= i < g.chunks@.len() ==> well_placed(
            (#[trigger] g.chunks@[i]).1,
            root_cell_rect(g.chunks@[i].0),
            tracks,
            space,
            0,
        )
}

/// The root-cell keys an envelope is filed under: the flooring cell indexes
/// of its extremes bracket the key on both axes.
pub open spec fn covering_key(e: Rect, k: (i64, i64)) -> bool {
    &&& env_min_x(e) / (GRID_SIZE_L as int) <= k.0 <= env_max_x(e) / (GRID_SIZE_L as int)
    &&& env_min_y(e) / (GRID_SIZE_L as int) <= k.1 <= env_max_y(e) / (GRID_SIZE_L as int)
}

/// The identifier is stored under every root-cell key its placement envelope
/// is filed under: what insertion guarantees, and what a query needs to be
/// sure of finding it.
pub open spec fn grid_covers(g: Grid, tracks: Seq<EnityTrack>, space: u128, d: u64) -> bool {
    forall|k: (i64, i64)|
        #[trigger] covering_key(view_env(tracks[d as int], space), k) ==> cell_entry_has(g, k, d)
}

/// Well-formedness: each tree well formed and every stored identifier valid.
pub open spec fn adaptive_wf(g: Grid, n: int) -> bool {
    &&& forall|i: int| 0 <= i < g.chunks@.len() ==> chunk_wf((#[trigger] g.chunks@[i]).1, 0)
    &&& forall|i: int|
        0 <= i < g.chunks@.len() ==> chunk_ids_valid((#[trigger] g.chunks@[i]).1, n)
}

/// The rectangle of the root cell at `key`, as an exec value.
fn root_rect(key: (i64, i64)) -> (r: Rect)
    requires
        key_in_bounds(key),
    ensures
        r == root_cell_rect(key),
        rect_ok(r),
        crate::vector::bounded_by(r.position, 6 * POS_LIMIT),
{
    proof {
        assert(key.0 * GRID_SIZE_L + 600 <= 6 * POS_LIMIT && -(6 * POS_LIMIT) <= key.0
            * GRID_SIZE_L + 600) by (nonlinear_arith)
            requires
                -4_000_000_000 <= key.0 <= 4_000_000_000,
                GRID_SIZE_L == 1200i64,
                POS_LIMIT == 1_000_000_000_000i64,
        ;
        assert(key.1 * GRID_SIZE_L + 600 <= 6 * POS_LIMIT && -(6 * POS_LIMIT) <= key.1
            * GRID_SIZE_L + 600) by (nonlinear_arith)
            requires
                -4_000_000_000 <= key.1 <= 4_000_000_000,
                GRID_SIZE_L == 1200i64,
                POS_LIMIT == 1_000_000_000_000i64,
        ;
    }
    let r = Rect {
        position: Vector(key.0 * GRID_SIZE_L + 600, key.1 * GRID_SIZE_L + 600),
        size: Vector(GRID_SIZE_L, GRID_SIZE_L),
        angle: Rotor { c: crate::num::ROT_ONE, s: 0 },
    };
    r
}

impl Grid {
    /// An empty index.
    pub fn new() -> (r: Grid)
        ensures
            r.chunks@.len() == 0,
            forall|d: u64| !grid_has(r, d),
            forall|n: int| adaptive_wf(r, n),
            forall|tracks: Seq<EnityTrack>, space: u128| #[trigger] grid_placed(r, tracks, space),
    {
        Grid { chunks: Vec::new() }
    }

    /// Insert an entity into the tree of every coarse cell its placement
    /// envelope overlaps.
    #[verifier::rlimit(100)]
    #[verifier::spinoff_prover]
    pub fn insert(&mut self, tracks: &Vec<EnityTrack>, space: u128, enity: u64)
        requires
            adaptive_wf(*old(self), tracks@.len() as int),
            (enity as int) < tracks@.len(),
            forall|i: int| 0 <= i < tracks@.len() ==> track_wf(#[trigger] tracks@[i]),
        ensures
            adaptive_wf(*final(self), tracks@.len() as int),
            forall|d: u64| #[trigger] grid_has(*final(self), d) <==> (grid_has(*old(self), d) || d
                == enity),
            grid_placed(*old(self), tracks@, space) ==> grid_placed(*final(self), tracks@, space),
            forall|k: (i64, i64), d: u64|
                #[trigger] cell_entry_has(*old(self), k, d) ==> cell_entry_has(*final(self), k, d),
            grid_covers(*final(self), tracks@, space, enity),
    {
        let n_tracks = tracks.len();
        proof {
            assert((enity as usize) as int == enity as int);
        }
        let env = tracks[enity as usize].viewbox(space);
        let (max, min) = env.maxmin();
        proof {
            crate::num::lemma_div_floor_bounds(min.0 as int, GRID_SIZE_L as int);
            crate::num::lemma_div_floor_bounds(min.1 as int, GRID_SIZE_L as int);
            crate::num::lemma_div_floor_bounds(max.0 as int, GRID_SIZE_L as int);
            crate::num::lemma_div_floor_bounds(max.1 as int, GRID_SIZE_L as int);
            vstd::arithmetic::div_mod::lemma_div_is_ordered(
                env_min_x(env),
                env_max_x(env),
                GRID_SIZE_L as int,
            );
            vstd::arithmetic::div_mod::lemma_div_is_ordered(
                env_min_y(env),
                env_max_y(env),
                GRID_SIZE_L as int,
            );
        }
        let lo = (div_floor(min.0, GRID_SIZE_L), div_floor(min.1, GRID_SIZE_L));
        let hi = (div_floor(max.0, GRID_SIZE_L), div_floor(max.1, GRID_SIZE_L));
        proof {
            vstd::arithmetic::div_mod::lemma_div_is_ordered(
                -(2 * POS_LIMIT) - 2,
                env_min_x(env),
                GRID_SIZE_L as int,
            );
            vstd::arithmetic::div_mod::lemma_div_is_ordered(
                env_max_x(env),
                2 * POS_LIMIT + 2,
                GRID_SIZE_L as int,
            );
            vstd::arithmetic::div_mod::lemma_div_is_ordered(
                -(2 * POS_LIMIT) - 2,
                env_min_y(env),
                GRID_SIZE_L as int,
            );
            vstd::arithmetic::div_mod::lemma_div_is_ordered(
                env_max_y(env),
                2 * POS_LIMIT + 2,
                GRID_SIZE_L as int,
            );
            assert(-2_000_000_000 <= lo.0 && hi.0 <= 2_000_000_000);
            assert(-2_000_000_000 <= lo.1 && hi.1 <= 2_000_000_000);
        }
        let mut x = lo.0;
        while x <= hi.0
            invariant
                lo.0 <= x <= hi.0 + 1,
                -2_000_000_000 <= lo.0 && hi.0 <= 2_000_000_000,
                -2_000_000_000 <= lo.1 && hi.1 <= 2_000_000_000,
                lo.1 <= hi.1,
                (enity as int) < tracks@.len(),
                forall|i: int| 0 <= i < tracks@.len() ==> track_wf(#[trigger] tracks@[i]),
                adaptive_wf(*self, tracks@.len() as int),
                x == lo.0 ==> (forall|d: u64| #[trigger] grid_has(*self, d) <==> grid_has(
                    *old(self),
                    d,
                )),
                x > lo.0 ==> (forall|d: u64| #[trigger] grid_has(*self, d) <==> (grid_has(
                    *old(self),
                    d,
                ) || d == enity)),
                grid_placed(*old(self), tracks@, space) ==> grid_placed(*self, tracks@, space),
                forall|k: (i64, i64), d: u64|
                    #[trigger] cell_entry_has(*old(self), k, d) ==> cell_entry_has(*self, k, d),
                forall|k: (i64, i64)|
                    lo.0 <= k.0 < x && lo.1 <= k.1 <= hi.1 ==> cell_entry_has(*self, k, enity),
            decreases hi.0 + 1 - x,
        {
            let mut y = lo.1;
            while y <= hi.1
                invariant
                    lo.0 <= x <= hi.0,
                    lo.1 <= y <= hi.1 + 1,
                    -2_000_000_000 <= lo.0 && x <= hi.0 && -2_000_000_000 <= lo.1 && hi.1
                        <= 2_000_000_000 && hi.0 <= 2_000_000_000,
                    (enity as int) < tracks@.len(),
                    forall|i: int| 0 <= i < tracks@.len() ==> track_wf(#[trigger] tracks@[i]),
                    adaptive_wf(*self, tracks@.len() as int),
                    (x == lo.0 && y == lo.1) ==> (forall|d: u64| #[trigger] grid_has(*self, d)
                        <==> grid_has(*old(self), d)),
                    (x > lo.0 || y > lo.1) ==> (forall|d: u64| #[trigger] grid_has(*self, d) <==> (
                    grid_has(*old(self), d) || d == enity)),
                    grid_placed(*old(self), tracks@, space) ==> grid_placed(*self, tracks@, space),
                    forall|k: (i64, i64), d: u64|
                        #[trigger] cell_entry_has(*old(self), k, d) ==> cell_entry_has(*self, k, d),
                    forall|k: (i64, i64)|
                        lo.0 <= k.0 < x && lo.1 <= k.1 <= hi.1 ==> cell_entry_has(*self, k, enity),
                    forall|k: (i64, i64)|
                        k.0 == x && lo.1 <= k.1 < y ==> cell_entry_has(*self, k, enity),
                decreases hi.1 + 1 - y,
            {
                let ghost before = *self;
                self.insert_cell(tracks, space, enity, (x, y));
                proof {
                    assert forall|k: (i64, i64)|
                        lo.0 <= k.0 < x && lo.1 <= k.1 <= hi.1 implies cell_entry_has(
                        *self,
                        k,
                        enity,
                    ) by {
                        assert(cell_entry_has(before, k, enity));
                    }
                    assert forall|k: (i64, i64)|
                        k.0 == x && lo.1 <= k.1 < y + 1 implies cell_entry_has(
                        *self,
                        k,
                        enity,
                    ) by {
                        if k.1 < y {
                            assert(cell_entry_has(before, k, enity));
                        } else {
                            assert(k == (x, y));
                        }
                    }
                }
                y = y + 1;
            }
            x = x + 1;
        }
        proof {
            assert forall|k: (i64, i64)| #[trigger] covering_key(
                view_env(tracks@[enity as int], space),
                k,
            ) implies cell_entry_has(*self, k, enity) by {
                assert(env == view_env(tracks@[enity as int], space));
                assert(lo.0 == env_min_x(env) / (GRID_SIZE_L as int));
                assert(hi.0 == env_max_x(env) / (GRID_SIZE_L as int));
                assert(lo.1 == env_min_y(env) / (GRID_SIZE_L as int));
                assert(hi.1 == env_max_y(env) / (GRID_SIZE_L as int));
                assert(lo.0 <= k.0 <= hi.0 && lo.1 <= k.1 <= hi.1);
            }
        }
    }

    /// Insert into one coarse cell's tree, creating the tree if absent.
    fn insert_cell(&mut self, tracks: &Vec<EnityTrack>, space: u128, enity: u64, cell: (i64, i64))
        requires
            adaptive_wf(*old(self), tracks@.len() as int),
            (enity as int) < tracks@.len(),
            forall|i: int| 0 <= i < tracks@.len() ==> track_wf(#[trigger] tracks@[i]),
            key_in_bounds(cell),
        ensures
            adaptive_wf(*final(self), tracks@.len() as int),
            forall|d: u64| #[trigger] grid_has(*final(self), d) <==> (grid_has(*old(self), d) || d
                == enity),
            cell_entry_has(*final(self), cell, enity),
            forall|k: (i64, i64), d: u64|
                #[trigger] cell_entry_has(*old(self), k, d) ==> cell_entry_has(*final(self), k, d),
            grid_placed(*old(self), tracks@, space) ==> grid_placed(*final(self), tracks@, space),
    {
        let n = self.chunks.len();
        let mut i: usize = 0;
        while i < n
            invariant
                *self == *old(self),
                i <= n,
                n == self.chunks@.len(),
                adaptive_wf(*self, tracks@.len() as int),
                (enity as int) < tracks@.len(),
                forall|ii: int| 0 <= ii < tracks@.len() ==> track_wf(#[trigger] tracks@[ii]),
                key_in_bounds(cell),
            decreases n - i,
        {
            if self.chunks[i].0.0 == cell.0 && self.chunks[i].0.1 == cell.1 {
                let ghost pre = self.chunks@;
                let entry = self.chunks.swap_remove(i);
                let rect = root_rect(cell);
                let newchunk = entry.1.insert(tracks, space, enity, &rect);
                self.chunks.push((entry.0, newchunk));
                proof {
                    assert forall|ii: int|
                        0 <= ii < self.chunks@.len() implies chunk_wf(
                        (#[trigger] self.chunks@[ii]).1,
                        0,
                    ) && chunk_ids_valid(self.chunks@[ii].1, tracks@.len() as int) by {
                        if ii < self.chunks@.len() - 1 {
                            assert(self.chunks@[ii] == pre.update(
                                i as int,
                                pre.last(),
                            ).drop_last()[ii]);
                        }
                    }
                    assert forall|d: u64| #[trigger] grid_has(*self, d) implies (grid_has(
                        *old(self),
                        d,
                    ) || d == enity) by {
                        let ii = choose|ii: int|
                            0 <= ii < self.chunks@.len() && chunk_has(
                                (#[trigger] self.chunks@[ii]).1,
                                d,
                            );
                        if ii == self.chunks@.len() - 1 {
                            if d != enity {
                                assert(chunk_has(pre[i as int].1, d));
                            }
                        } else {
                            let before_entry = pre.update(i as int, pre.last()).drop_last()[ii];
                            assert(self.chunks@[ii] == before_entry);
                            if ii == i as int {
                                assert(before_entry == pre[pre.len() - 1]);
                                assert(chunk_has(pre[pre.len() - 1].1, d));
                            } else {
                                assert(chunk_has(pre[ii].1, d));
                            }
                        }
                    }
                    assert forall|d: u64|
                        (grid_has(*old(self), d) || d == enity) implies #[trigger] grid_has(
                        *self,
                        d,
                    ) by {
                        if d == enity {
                            assert(chunk_has(self.chunks@[self.chunks@.len() - 1].1, d));
                        } else {
                            let ii = choose|ii: int|
                                0 <= ii < pre.len() && chunk_has((#[trigger] pre[ii]).1, d);
                            if ii == i as int {
                                assert(chunk_has(self.chunks@[self.chunks@.len() - 1].1, d));
                            } else if ii == pre.len() - 1 {
                                if (i as int) < pre.len() - 1 {
                                    assert(self.chunks@[i as int] == pre.update(
                                        i as int,
                                        pre.last(),
                                    ).drop_last()[i as int]);
                                    assert(chunk_has(self.chunks@[i as int].1, d));
                                } else {
                                    assert(chunk_has(self.chunks@[self.chunks@.len() - 1].1, d));
                                }
                            } else {
                                assert(self.chunks@[ii] == pre.update(
                                    i as int,
                                    pre.last(),
                                ).drop_last()[ii]);
                                assert(chunk_has(self.chunks@[ii].1, d));
                            }
                        }
                    }
                    assert(entry.0 == cell);
                    assert(cell_entry_has(*self, cell, enity)) by {
                        assert(self.chunks@[self.chunks@.len() - 1].0 == cell);
                        assert(chunk_has(self.chunks@[self.chunks@.len() - 1].1, enity));
                    }
                    assert forall|k: (i64, i64), d: u64|
                        #[trigger] cell_entry_has(*old(self), k, d) implies cell_entry_has(
                        *self,
                        k,
                        d,
                    ) by {
                        let ii = choose|ii: int|
                            0 <= ii < pre.len() && (#[trigger] pre[ii]).0 == k && chunk_has(
                                pre[ii].1,
                                d,
                            );
                        if ii == i as int {
                            assert(self.chunks@[self.chunks@.len() - 1].0 == k);
                            assert(chunk_has(self.chunks@[self.chunks@.len() - 1].1, d));
                        } else if ii == pre.len() - 1 {
                            assert((i as int) < pre.len() - 1);
                            assert(self.chunks@[i as int] == pre.update(
                                i as int,
                                pre.last(),
                            ).drop_last()[i as int]);
                            assert(self.chunks@[i as int] == pre[pre.len() - 1]);
                        } else {
                            assert(self.chunks@[ii] == pre.update(
                                i as int,
                                pre.last(),
                            ).drop_last()[ii]);
                            assert(self.chunks@[ii] == pre[ii]);
                        }
                    }
                    if grid_placed(*old(self), tracks@, space) {
                        assert(well_placed(
                            pre[i as int].1,
                            root_cell_rect(pre[i as int].0),
                            tracks@,
                            space,
                            0,
                        ));
                        assert(pre[i as int].0 == cell);
                        assert(well_placed(newchunk, root_cell_rect(cell), tracks@, space, 0));
                        assert forall|jj: int|
                            0 <= jj < self.chunks@.len() implies well_placed(
                            (#[trigger] self.chunks@[jj]).1,
                            root_cell_rect(self.chunks@[jj].0),
                            tracks@,
                            space,
                            0,
                        ) by {
                            if jj < self.chunks@.len() - 1 {
                                assert(self.chunks@[jj] == pre.update(
                                    i as int,
                                    pre.last(),
                                ).drop_last()[jj]);
                                if jj == i as int {
                                    assert(self.chunks@[jj] == pre[pre.len() - 1]);
                                } else {
                                    assert(self.chunks@[jj] == pre[jj]);
                                }
                            }
                        }
                    }
                }
                return ;
            }
            i = i + 1;
        }
        let ghost pre = self.chunks@;
        let fresh = GridChunk::default();
        let rect = root_rect(cell);
        let newchunk = fresh.insert(tracks, space, enity, &rect);
        self.chunks.push((cell, newchunk));
        proof {
            assert forall|ii: int|
                0 <= ii < self.chunks@.len() implies chunk_wf((#[trigger] self.chunks@[ii]).1, 0)
                && chunk_ids_valid(self.chunks@[ii].1, tracks@.len() as int) by {
                if ii < pre.len() {
                    assert(self.chunks@[ii] == pre[ii]);
                }
            }
            assert forall|d: u64| #[trigger] grid_has(*self, d) implies (grid_has(*old(self), d)
                || d == enity) by {
                let ii = choose|ii: int|
                    0 <= ii < self.chunks@.len() && chunk_has((#[trigger] self.chunks@[ii]).1, d);
                if ii < pre.len() {
                    assert(self.chunks@[ii] == pre[ii]);
                    assert(chunk_has(pre[ii].1, d));
                }
            }
            assert forall|d: u64|
                (grid_has(*old(self), d) || d == enity) implies #[trigger] grid_has(*self, d) by {
                if d == enity {
                    assert(chunk_has(self.chunks@[self.chunks@.len() - 1].1, d));
                } else {
                    let ii = choose|ii: int|
                        0 <= ii < pre.len() && chunk_has((#[trigger] pre[ii]).1, d);
                    assert(self.chunks@[ii] == pre[ii]);
                    assert(chunk_has(self.chunks@[ii].1, d));
                }
            }
            assert(cell_entry_has(*self, cell, enity)) by {
                assert(self.chunks@[self.chunks@.len() - 1].0 == cell);
                assert(chunk_has(self.chunks@[self.chunks@.len() - 1].1, enity));
            }
            assert forall|k: (i64, i64), d: u64|
                #[trigger] cell_entry_has(*old(self), k, d) implies cell_entry_has(
                *self,
                k,
                d,
            ) by {
                let ii = choose|ii: int|
                    0 <= ii < pre.len() && (#[trigger] pre[ii]).0 == k && chunk_has(pre[ii].1, d);
                assert(self.chunks@[ii] == pre[ii]);
            }
            if grid_placed(*old(self), tracks@, space) {
                assert(well_placed(fresh, root_cell_rect(cell), tracks@, space, 0));
                assert(well_placed(newchunk, root_cell_rect(cell), tracks@, space, 0));
                assert forall|jj: int|
                    0 <= jj < self.chunks@.len() implies well_placed(
                    (#[trigger] self.chunks@[jj]).1,
                    root_cell_rect(self.chunks@[jj].0),
                    tracks@,
                    space,
                    0,
                ) by {
                    if jj < pre.len() {
                        assert(self.chunks@[jj] == pre[jj]);
                    }
                }
            }
        }
    }

    /// Drop every tree's entries; trees that were already empty are pruned.
    pub fn clear(&mut self)
        requires
            forall|i: int|
                0 <= i < old(self).chunks@.len() ==> chunk_wf(
                    (#[trigger] old(self).chunks@[i]).1,
                    0,
                ),
        ensures
            forall|d: u64| !grid_has(*final(self), d),
            forall|n: int| adaptive_wf(*final(self), n),
            forall|tracks: Seq<EnityTrack>, space: u128| #[trigger] grid_placed(
                *final(self),
                tracks,
                space,
            ),
    {
        let mut kept: Vec<((i64, i64), GridChunk)> = Vec::new();
        let n = self.chunks.len();
        let mut remaining: Vec<((i64, i64), GridChunk)> = Vec::new();
        core::mem::swap(&mut self.chunks, &mut remaining);
        let mut i: usize = 0;
        while i < n
            invariant
                i <= n,
                remaining@.len() == n - i,
                forall|j: int|
                    0 <= j < remaining@.len() ==> chunk_wf((#[trigger] remaining@[j]).1, 0),
                forall|j: int|
                    0 <= j < kept@.len() ==> chunk_wf((#[trigger] kept@[j]).1, 0) && (forall|
                        d: u64,
                    | !chunk_has(kept@[j].1, d)) && chunk_ids_valid(kept@[j].1, 0),
            decreases n - i,
        {
            let entry = remaining.remove(0);
            let (cleared, was_empty) = entry.1.clear();
            if !was_empty {
                kept.push((entry.0, cleared));
                proof {
                    assert(chunk_ids_valid(cleared, 0));
                }
            }
            i = i + 1;
        }
        self.chunks = kept;
        proof {
            assert forall|d: u64| !(#[trigger] grid_has(*self, d)) by {
                if grid_has(*self, d) {
                    let ii = choose|ii: int|
                        0 <= ii < self.chunks@.len() && chunk_has(
                            (#[trigger] self.chunks@[ii]).1,
                            d,
                        );
                }
            }
            assert forall|n2: int| #[trigger] adaptive_wf(*self, n2) by {
                assert forall|ii: int|
                    0 <= ii < self.chunks@.len() implies chunk_wf((#[trigger] self.chunks@[ii]).1, 0)
                    && chunk_ids_valid(self.chunks@[ii].1, n2) by {
                    assert(forall|d: u64| !chunk_has(self.chunks@[ii].1, d));
                }
            }
            assert forall|tracks2: Seq<EnityTrack>, space2: u128| #[trigger] grid_placed(
                *self,
                tracks2,
                space2,
            ) by {
                assert forall|ii: int| 0 <= ii < self.chunks@.len() implies well_placed(
                    (#[trigger] self.chunks@[ii]).1,
                    root_cell_rect(self.chunks@[ii].0),
                    tracks2,
                    space2,
                    0,
                ) by {
                    lemma_empty_well_placed(
                        self.chunks@[ii].1,
                        root_cell_rect(self.chunks@[ii].0),
                        tracks2,
                        space2,
                        0,
                    );
                }
            }
        }
    }

    /// Narrow-phase-verified candidates near an entity: exactly the
    /// identifiers some visited root cell's tree collects for the entity's
    /// placement envelope, excluding the entity itself, whose world hit boxes
    /// truly overlap the entity's.
    #[verifier::rlimit(100)]
    #[verifier::spinoff_prover]
    pub fn collision(&self, tracks: &Vec<EnityTrack>, space: u128, enity: u64) -> (r: Vec<u64>)
        requires
            adaptive_wf(*self, tracks@.len() as int),
            (enity as int) < tracks@.len(),
            forall|i: int| 0 <= i < tracks@.len() ==> track_wf(#[trigger] tracks@[i]),
        ensures
            forall|c: u64|
                r@.contains(c) <==> ((c as int) < tracks@.len() && c != enity
                    && adaptive_candidate(*self, view_env(tracks@[enity as int], space), c)
                    && tracks_overlap(tracks@[enity as int], tracks@[c as int], space)),
            forall|i: int, j: int| 0 <= i < j < r@.len() ==> r@[i] != r@[j],
            forall|c: u64|
                ((c as int) < tracks@.len() && c != enity && grid_placed(*self, tracks@, space)
                    && grid_covers(*self, tracks@, space, c) && crate::rect::env_overlap(
                    view_env(tracks@[c as int], space),
                    view_env(tracks@[enity as int], space),
                ) && env_min_x(view_env(tracks@[c as int], space)) < env_max_x(
                    view_env(tracks@[c as int], space),
                ) && env_min_y(view_env(tracks@[c as int], space)) < env_max_y(
                    view_env(tracks@[c as int], space),
                ) && env_min_x(view_env(tracks@[enity as int], space)) < env_max_x(
                    view_env(tracks@[enity as int], space),
                ) && env_min_y(view_env(tracks@[enity as int], space)) < env_max_y(
                    view_env(tracks@[enity as int], space),
                ) && tracks_overlap(tracks@[enity as int], tracks@[c as int], space))
                    ==> r@.contains(c),
    {
        let n_tracks = tracks.len();
        proof {
            assert((enity as usize) as int == enity as int);
        }
        let env = tracks[enity as usize].viewbox(space);
        let mut out: Vec<u64> = Vec::new();
        let n = self.chunks.len();
        let mut i: usize = 0;
        while i < n
            invariant
                i <= n,
                n == self.chunks@.len(),
                rect_ok(env),
                env == view_env(tracks@[enity as int], space),
                (enity as int) < tracks@.len(),
                tracks@.len() <= usize::MAX,
                forall|ii: int| 0 <= ii < tracks@.len() ==> track_wf(#[trigger] tracks@[ii]),
                adaptive_wf(*self, tracks@.len() as int),
                forall|c: u64|
                    out@.contains(c) ==> ((c as int) < tracks@.len() && c != enity
                        && adaptive_candidate(*self, env, c) && tracks_overlap(
                        tracks@[enity as int],
                        tracks@[c as int],
                        space,
                    )),
                forall|c: u64|
                    ((c as int) < tracks@.len() && c != enity && (exists|ii: int|
                        0 <= ii < i && key_in_bounds((#[trigger] self.chunks@[ii]).0)
                            && crate::rect::env_overlap(root_cell_rect(self.chunks@[ii].0), env)
                            && collect_spec(
                            self.chunks@[ii].1,
                            env,
                            root_cell_rect(self.chunks@[ii].0),
                            0,
                        ).contains(c)) && tracks_overlap(
                        tracks@[enity as int],
                        tracks@[c as int],
                        space,
                    )) ==> out@.contains(c),
                forall|a: int, b: int| 0 <= a < b < out@.len() ==> out@[a] != out@[b],
            decreases n - i,
        {
            let key = self.chunks[i].0;
            let ghost out_at_entry = out@;
            if -4_000_000_000 <= key.0 && key.0 <= 4_000_000_000 && -4_000_000_000 <= key.1
                && key.1 <= 4_000_000_000 {
                let cell = Rect {
                    position: Vector(
                        key.0 * GRID_SIZE_L + 600,
                        key.1 * GRID_SIZE_L + 600,
                    ),
                    size: Vector(GRID_SIZE_L, GRID_SIZE_L),
                    angle: Rotor { c: crate::num::ROT_ONE, s: 0 },
                };
                proof {
                    assert(key.0 * GRID_SIZE_L + 600 <= 6 * POS_LIMIT && -(6 * POS_LIMIT) <= key.0
                        * GRID_SIZE_L + 600) by (nonlinear_arith)
                        requires
                            -4_000_000_000 <= key.0 <= 4_000_000_000,
                            GRID_SIZE_L == 1200i64,
                            POS_LIMIT == 1_000_000_000_000i64,
                    ;
                    assert(key.1 * GRID_SIZE_L + 600 <= 6 * POS_LIMIT && -(6 * POS_LIMIT) <= key.1
                        * GRID_SIZE_L + 600) by (nonlinear_arith)
                        requires
                            -4_000_000_000 <= key.1 <= 4_000_000_000,
                            GRID_SIZE_L == 1200i64,
                            POS_LIMIT == 1_000_000_000_000i64,
                    ;
                    assert(rect_ok(cell));
                    assert(cell == root_cell_rect(key));
                }
                if cell.envelope_collision(&env) {
                    let found = self.chunks[i].1.collect(&env, &cell);
                    let m = found.len();
                    let mut k: usize = 0;
                    while k < m
                        invariant
                            k <= m,
                            m == found@.len(),
                            i < n,
                            n == self.chunks@.len(),
                            rect_ok(env),
                            env == view_env(tracks@[enity as int], space),
                            (enity as int) < tracks@.len(),
                            tracks@.len() <= usize::MAX,
                            forall|ii: int|
                                0 <= ii < tracks@.len() ==> track_wf(#[trigger] tracks@[ii]),
                            adaptive_wf(*self, tracks@.len() as int),
                            key == self.chunks@[i as int].0,
                            key_in_bounds(key),
                            crate::rect::env_overlap(root_cell_rect(key), env),
                            found@ == collect_spec(
                                self.chunks@[i as int].1,
                                env,
                                root_cell_rect(key),
                                0,
                            ),
                            forall|kk: int|
                                0 <= kk < found@.len() ==> chunk_has(
                                    self.chunks@[i as int].1,
                                    #[trigger] found@[kk],
                                ),
                            forall|c: u64|
                                out@.contains(c) ==> ((c as int) < tracks@.len() && c != enity
                                    && adaptive_candidate(*self, env, c) && tracks_overlap(
                                    tracks@[enity as int],
                                    tracks@[c as int],
                                    space,
                                )),
                            forall|c: u64|
                                ((c as int) < tracks@.len() && c != enity && ((exists|ii: int|
                                    0 <= ii < i && key_in_bounds((#[trigger] self.chunks@[ii]).0)
                                        && crate::rect::env_overlap(
                                        root_cell_rect(self.chunks@[ii].0),
                                        env,
                                    ) && collect_spec(
                                        self.chunks@[ii].1,
                                        env,
                                        root_cell_rect(self.chunks@[ii].0),
                                        0,
                                    ).contains(c)) || found@.subrange(0, k as int).contains(c))
                                    && tracks_overlap(
                                    tracks@[enity as int],
                                    tracks@[c as int],
                                    space,
                                )) ==> out@.contains(c),
                            forall|a: int, b: int| 0 <= a < b < out@.len() ==> out@[a] != out@[b],
                        decreases m - k,
                    {
                        let c = found[k];
                        let ghost out0 = out@;
                        proof {
                            assert(chunk_has(self.chunks@[i as int].1, c)) by {
                                assert(found@[k as int] == c);
                            }
                            assert(chunk_ids_valid(self.chunks@[i as int].1, tracks@.len() as int));
                            assert((c as int) < tracks@.len());
                            assert((c as usize) as int == c as int);
                            assert(found@.contains(c)) by {
                                assert(found@[k as int] == c);
                            }
                            assert(adaptive_candidate(*self, env, c));
                        }
                        if c != enity && !adaptive_contains(&out, c) {
                            if tracks[enity as usize].collision(space, &tracks[c as usize]) {
                                out.push(c);
                                proof {
                                    assert(out@[out@.len() - 1] == c);
                                    assert(out@.contains(c));
                                }
                            }
                        }
                        proof {
                            assert(found@.subrange(0, (k + 1) as int) =~= found@.subrange(
                                0,
                                k as int,
                            ).push(c));
                            assert(forall|d: u64|
                                out0.contains(d) ==> #[trigger] out@.contains(d)) by {
                                assert forall|d: u64| out0.contains(d) implies #[trigger] out@.contains(
                                    d,
                                ) by {
                                    let idx = choose|idx: int|
                                        0 <= idx < out0.len() && out0[idx] == d;
                                    assert(out@[idx] == d);
                                }
                            }
                            assert forall|d: u64| out@.contains(d) implies ((d as int)
                                < tracks@.len() && d != enity && adaptive_candidate(*self, env, d)
                                && tracks_overlap(
                                tracks@[enity as int],
                                tracks@[d as int],
                                space,
                            )) by {
                                if !out0.contains(d) {
                                    let idx = choose|idx: int|
                                        0 <= idx < out@.len() && out@[idx] == d;
                                    if idx < out0.len() {
                                        assert(out0[idx] == d);
                                        assert(out0.contains(d));
                                    } else {
                                        assert(d == c);
                                    }
                                }
                            }
                            assert forall|d: u64|
                                ((d as int) < tracks@.len() && d != enity && ((exists|ii: int|
                                    0 <= ii < i && key_in_bounds((#[trigger] self.chunks@[ii]).0)
                                        && crate::rect::env_overlap(
                                        root_cell_rect(self.chunks@[ii].0),
                                        env,
                                    ) && collect_spec(
                                        self.chunks@[ii].1,
                                        env,
                                        root_cell_rect(self.chunks@[ii].0),
                                        0,
                                    ).contains(d)) || found@.subrange(0, (k + 1) as int).contains(
                                    d,
                                )) && tracks_overlap(
                                    tracks@[enity as int],
                                    tracks@[d as int],
                                    space,
                                )) implies out@.contains(d) by {
                                if found@.subrange(0, (k + 1) as int).contains(d)
                                    && !found@.subrange(0, k as int).contains(d) {
                                    let idx = choose|idx: int|
                                        0 <= idx < found@.subrange(0, (k + 1) as int).len() && (
                                        #[trigger] found@.subrange(0, (k + 1) as int)[idx]) == d;
                                    if idx < k {
                                        assert(found@.subrange(0, k as int)[idx] == d);
                                    } else {
                                        assert(d == c);
                                    }
                                }
                            }
                        }
                        k = k + 1;
                    }
                    proof {
                        assert(found@.subrange(0, m as int) =~= found@);
                        assert forall|c: u64|
                            ((c as int) < tracks@.len() && c != enity && (exists|ii: int|
                                0 <= ii < i + 1 && key_in_bounds((#[trigger] self.chunks@[ii]).0)
                                    && crate::rect::env_overlap(
                                    root_cell_rect(self.chunks@[ii].0),
                                    env,
                                ) && collect_spec(
                                    self.chunks@[ii].1,
                                    env,
                                    root_cell_rect(self.chunks@[ii].0),
                                    0,
                                ).contains(c)) && tracks_overlap(
                                tracks@[enity as int],
                                tracks@[c as int],
                                space,
                            )) implies out@.contains(c) by {
                            let ii = choose|ii: int|
                                0 <= ii < i + 1 && key_in_bounds((#[trigger] self.chunks@[ii]).0)
                                    && crate::rect::env_overlap(
                                    root_cell_rect(self.chunks@[ii].0),
                                    env,
                                ) && collect_spec(
                                    self.chunks@[ii].1,
                                    env,
                                    root_cell_rect(self.chunks@[ii].0),
                                    0,
                                ).contains(c);
                            if ii == i as int {
                                assert(found@.contains(c));
                            }
                        }
                    }
                } else {
                    proof {
                        lemma_entry_extends_candidates(
                            *self,
                            env,
                            i as int,
                            tracks@,
                            space,
                            enity,
                            out@,
                        );
                    }
                }
            } else {
                proof {
                    lemma_entry_extends_candidates(
                        *self,
                        env,
                        i as int,
                        tracks@,
                        space,
                        enity,
                        out@,
                    );
                }
            }
            i = i + 1;
        }
        proof {
            assert forall|c: u64|
                ((c as int) < tracks@.len() && c != enity && adaptive_candidate(*self, env, c)
                    && tracks_overlap(tracks@[enity as int], tracks@[c as int], space)) implies out@.contains(
                c,
            ) by {
                let ii = choose|ii: int|
                    0 <= ii < self.chunks@.len() && key_in_bounds((#[trigger] self.chunks@[ii]).0)
                        && crate::rect::env_overlap(root_cell_rect(self.chunks@[ii].0), env)
                        && collect_spec(
                        self.chunks@[ii].1,
                        env,
                        root_cell_rect(self.chunks@[ii].0),
                        0,
                    ).contains(c);
                assert(ii < i as int);
            }
            assert forall|c: u64|
                ((c as int) < tracks@.len() && c != enity && grid_placed(*self, tracks@, space)
                    && grid_covers(*self, tracks@, space, c) && crate::rect::env_overlap(
                    view_env(tracks@[c as int], space),
                    view_env(tracks@[enity as int], space),
                ) && env_min_x(view_env(tracks@[c as int], space)) < env_max_x(
                    view_env(tracks@[c as int], space),
                ) && env_min_y(view_env(tracks@[c as int], space)) < env_max_y(
                    view_env(tracks@[c as int], space),
                ) && env_min_x(view_env(tracks@[enity as int], space)) < env_max_x(
                    view_env(tracks@[enity as int], space),
                ) && env_min_y(view_env(tracks@[enity as int], space)) < env_max_y(
                    view_env(tracks@[enity as int], space),
                ) && tracks_overlap(
                    tracks@[enity as int],
                    tracks@[c as int],
                    space,
                )) implies out@.contains(c) by {
                crate::track::lemma_view_env_ok(tracks@[enity as int], space);
                lemma_prune_sound(*self, tracks@, space, env, c);
            }
        }
        out
    }

    /// Narrow-phase-verified candidates for a rectangle: exactly the
    /// identifiers some visited root cell's tree collects for the rectangle,
    /// whose world hit boxes truly overlap it.
    #[verifier::rlimit(100)]
    #[verifier::spinoff_prover]
    pub fn collision_by_rect(&self, tracks: &Vec<EnityTrack>, space: u128, rect: Rect) -> (r: Vec<
        u64,
    >)
        requires
            adaptive_wf(*self, tracks@.len() as int),
            rect_ok(rect),
            forall|i: int| 0 <= i < tracks@.len() ==> track_wf(#[trigger] tracks@[i]),
        ensures
            forall|c: u64|
                r@.contains(c) <==> ((c as int) < tracks@.len() && adaptive_candidate(
                    *self,
                    rect,
                    c,
                ) && track_hits_box(tracks@[c as int], space, rect)),
            forall|i: int, j: int| 0 <= i < j < r@.len() ==> r@[i] != r@[j],
            forall|c: u64|
                ((c as int) < tracks@.len() && grid_placed(*self, tracks@, space)
                    && grid_covers(*self, tracks@, space, c) && crate::rect::env_overlap(
                    view_env(tracks@[c as int], space),
                    rect,
                ) && env_min_x(view_env(tracks@[c as int], space)) < env_max_x(
                    view_env(tracks@[c as int], space),
                ) && env_min_y(view_env(tracks@[c as int], space)) < env_max_y(
                    view_env(tracks@[c as int], space),
                ) && env_min_x(rect) < env_max_x(rect) && env_min_y(rect) < env_max_y(rect) && -(2
                    * POS_LIMIT) - 2 <= env_min_x(rect) && env_max_x(rect) <= 2 * POS_LIMIT + 2
                    && -(2 * POS_LIMIT) - 2 <= env_min_y(rect) && env_max_y(rect) <= 2 * POS_LIMIT
                    + 2 && track_hits_box(tracks@[c as int], space, rect)) ==> r@.contains(c),
    {
        let n_tracks = tracks.len();
        let mut out: Vec<u64> = Vec::new();
        let n = self.chunks.len();
        let mut i: usize = 0;
        while i < n
            invariant
                i <= n,
                n == self.chunks@.len(),
                rect_ok(rect),
                tracks@.len() <= usize::MAX,
                forall|ii: int| 0 <= ii < tracks@.len() ==> track_wf(#[trigger] tracks@[ii]),
                adaptive_wf(*self, tracks@.len() as int),
                forall|c: u64|
                    out@.contains(c) ==> ((c as int) < tracks@.len() && adaptive_candidate(
                        *self,
                        rect,
                        c,
                    ) && track_hits_box(tracks@[c as int], space, rect)),
                forall|c: u64|
                    ((c as int) < tracks@.len() && (exists|ii: int|
                        0 <= ii < i && key_in_bounds((#[trigger] self.chunks@[ii]).0)
                            && crate::rect::env_overlap(root_cell_rect(self.chunks@[ii].0), rect)
                            && collect_spec(
                            self.chunks@[ii].1,
                            rect,
                            root_cell_rect(self.chunks@[ii].0),
                            0,
                        ).contains(c)) && track_hits_box(tracks@[c as int], space, rect))
                        ==> out@.contains(c),
                forall|a: int, b: int| 0 <= a < b < out@.len() ==> out@[a] != out@[b],
            decreases n - i,
        {
            let key = self.chunks[i].0;
            if -4_000_000_000 <= key.0 && key.0 <= 4_000_000_000 && -4_000_000_000 <= key.1
                && key.1 <= 4_000_000_000 {
                let cell = Rect {
                    position: Vector(
                        key.0 * GRID_SIZE_L + 600,
                        key.1 * GRID_SIZE_L + 600,
                    ),
                    size: Vector(GRID_SIZE_L, GRID_SIZE_L),
                    angle: Rotor { c: crate::num::ROT_ONE, s: 0 },
                };
                proof {
                    assert(key.0 * GRID_SIZE_L + 600 <= 6 * POS_LIMIT && -(6 * POS_LIMIT) <= key.0
                        * GRID_SIZE_L + 600) by (nonlinear_arith)
                        requires
                            -4_000_000_000 <= key.0 <= 4_000_000_000,
                            GRID_SIZE_L == 1200i64,
                            POS_LIMIT == 1_000_000_000_000i64,
                    ;
                    assert(key.1 * GRID_SIZE_L + 600 <= 6 * POS_LIMIT && -(6 * POS_LIMIT) <= key.1
                        * GRID_SIZE_L + 600) by (nonlinear_arith)
                        requires
                            -4_000_000_000 <= key.1 <= 4_000_000_000,
                            GRID_SIZE_L == 1200i64,
                            POS_LIMIT == 1_000_000_000_000i64,
                    ;
                    assert(rect_ok(cell));
                    assert(cell == root_cell_rect(key));
                }
                if cell.envelope_collision(&rect) {
                    let found = self.chunks[i].1.collect(&rect, &cell);
                    let m = found.len();
                    let mut k: usize = 0;
                    while k < m
                        invariant
                            k <= m,
                            m == found@.len(),
                            i < n,
                            n == self.chunks@.len(),
                            rect_ok(rect),
                            tracks@.len() <= usize::MAX,
                            forall|ii: int|
                                0 <= ii < tracks@.len() ==> track_wf(#[trigger] tracks@[ii]),
                            adaptive_wf(*self, tracks@.len() as int),
                            key == self.chunks@[i as int].0,
                            key_in_bounds(key),
                            crate::rect::env_overlap(root_cell_rect(key), rect),
                            found@ == collect_spec(
                                self.chunks@[i as int].1,
                                rect,
                                root_cell_rect(key),
                                0,
                            ),
                            forall|kk: int|
                                0 <= kk < found@.len() ==> chunk_has(
                                    self.chunks@[i as int].1,
                                    #[trigger] found@[kk],
                                ),
                            forall|c: u64|
                                out@.contains(c) ==> ((c as int) < tracks@.len()
                                    && adaptive_candidate(*self, rect, c) && track_hits_box(
                                    tracks@[c as int],
                                    space,
                                    rect,
                                )),
                            forall|c: u64|
                                ((c as int) < tracks@.len() && ((exists|ii: int|
                                    0 <= ii < i && key_in_bounds((#[trigger] self.chunks@[ii]).0)
                                        && crate::rect::env_overlap(
                                        root_cell_rect(self.chunks@[ii].0),
                                        rect,
                                    ) && collect_spec(
                                        self.chunks@[ii].1,
                                        rect,
                                        root_cell_rect(self.chunks@[ii].0),
                                        0,
                                    ).contains(c)) || found@.subrange(0, k as int).contains(c))
                                    && track_hits_box(tracks@[c as int], space, rect))
                                    ==> out@.contains(c),
                            forall|a: int, b: int| 0 <= a < b < out@.len() ==> out@[a] != out@[b],
                        decreases m - k,
                    {
                        let c = found[k];
                        let ghost out0 = out@;
                        proof {
                            assert(chunk_has(self.chunks@[i as int].1, c)) by {
                                assert(found@[k as int] == c);
                            }
                            assert(chunk_ids_valid(self.chunks@[i as int].1, tracks@.len() as int));
                            assert((c as int) < tracks@.len());
                            assert((c as usize) as int == c as int);
                            assert(found@.contains(c)) by {
                                assert(found@[k as int] == c);
                            }
                            assert(adaptive_candidate(*self, rect, c));
                        }
                        if !adaptive_contains(&out, c) {
                            if tracks[c as usize].collision_node(space, rect) {
                                out.push(c);
                                proof {
                                    assert(out@[out@.len() - 1] == c);
                                    assert(out@.contains(c));
                                }
                            }
                        }
                        proof {
                            assert(found@.subrange(0, (k + 1) as int) =~= found@.subrange(
                                0,
                                k as int,
                            ).push(c));
                            assert(forall|d: u64|
                                out0.contains(d) ==> #[trigger] out@.contains(d)) by {
                                assert forall|d: u64| out0.contains(d) implies #[trigger] out@.contains(
                                    d,
                                ) by {
                                    let idx = choose|idx: int|
                                        0 <= idx < out0.len() && out0[idx] == d;
                                    assert(out@[idx] == d);
                                }
                            }
                            assert forall|d: u64| out@.contains(d) implies ((d as int)
                                < tracks@.len() && adaptive_candidate(*self, rect, d)
                                && track_hits_box(tracks@[d as int], space, rect)) by {
                                if !out0.contains(d) {
                                    let idx = choose|idx: int|
                                        0 <= idx < out@.len() && out@[idx] == d;
                                    if idx < out0.len() {
                                        assert(out0[idx] == d);
                                        assert(out0.contains(d));
                                    } else {
                                        assert(d == c);
                                    }
                                }
                            }
                            assert forall|d: u64|
                                ((d as int) < tracks@.len() && ((exists|ii: int|
                                    0 <= ii < i && key_in_bounds((#[trigger] self.chunks@[ii]).0)
                                        && crate::rect::env_overlap(
                                        root_cell_rect(self.chunks@[ii].0),
                                        rect,
                                    ) && collect_spec(
                                        self.chunks@[ii].1,
                                        rect,
                                        root_cell_rect(self.chunks@[ii].0),
                                        0,
                                    ).contains(d)) || found@.subrange(0, (k + 1) as int).contains(
                                    d,
                                )) && track_hits_box(tracks@[d as int], space, rect)) implies out@.contains(
                                d,
                            ) by {
                                if found@.subrange(0, (k + 1) as int).contains(d)
                                    && !found@.subrange(0, k as int).contains(d) {
                                    let idx = choose|idx: int|
                                        0 <= idx < found@.subrange(0, (k + 1) as int).len() && (
                                        #[trigger] found@.subrange(0, (k + 1) as int)[idx]) == d;
                                    if idx < k {
                                        assert(found@.subrange(0, k as int)[idx] == d);
                                    } else {
                                        assert(d == c);
                                    }
                                }
                            }
                        }
                        k = k + 1;
                    }
                    proof {
                        assert(found@.subrange(0, m as int) =~= found@);
                        assert forall|c: u64|
                            ((c as int) < tracks@.len() && (exists|ii: int|
                                0 <= ii < i + 1 && key_in_bounds((#[trigger] self.chunks@[ii]).0)
                                    && crate::rect::env_overlap(
                                    root_cell_rect(self.chunks@[ii].0),
                                    rect,
                                ) && collect_spec(
                                    self.chunks@[ii].1,
                                    rect,
                                    root_cell_rect(self.chunks@[ii].0),
                                    0,
                                ).contains(c)) && track_hits_box(tracks@[c as int], space, rect))
                            implies out@.contains(c) by {
                            let ii = choose|ii: int|
                                0 <= ii < i + 1 && key_in_bounds((#[trigger] self.chunks@[ii]).0)
                                    && crate::rect::env_overlap(
                                    root_cell_rect(self.chunks@[ii].0),
                                    rect,
                                ) && collect_spec(
                                    self.chunks@[ii].1,
                                    rect,
                                    root_cell_rect(self.chunks@[ii].0),
                                    0,
                                ).contains(c);
                            if ii == i as int {
                                assert(found@.contains(c));
                            }
                        }
                    }
                }
            }
            i = i + 1;
        }
        proof {
            assert forall|c: u64|
                ((c as int) < tracks@.len() && adaptive_candidate(*self, rect, c)
                    && track_hits_box(tracks@[c as int], space, rect)) implies out@.contains(c) by {
                let ii = choose|ii: int|
                    0 <= ii < self.chunks@.len() && key_in_bounds((#[trigger] self.chunks@[ii]).0)
                        && crate::rect::env_overlap(root_cell_rect(self.chunks@[ii].0), rect)
                        && collect_spec(
                        self.chunks@[ii].1,
                        rect,
                        root_cell_rect(self.chunks@[ii].0),
                        0,
                    ).contains(c);
                assert(ii < i as int);
            }
            assert forall|c: u64|
                ((c as int) < tracks@.len() && grid_placed(*self, tracks@, space)
                    && grid_covers(*self, tracks@, space, c) && crate::rect::env_overlap(
                    view_env(tracks@[c as int], space),
                    rect,
                ) && env_min_x(view_env(tracks@[c as int], space)) < env_max_x(
                    view_env(tracks@[c as int], space),
                ) && env_min_y(view_env(tracks@[c as int], space)) < env_max_y(
                    view_env(tracks@[c as int], space),
                ) && env_min_x(rect) < env_max_x(rect) && env_min_y(rect) < env_max_y(rect) && -(2
                    * POS_LIMIT) - 2 <= env_min_x(rect) && env_max_x(rect) <= 2 * POS_LIMIT + 2
                    && -(2 * POS_LIMIT) - 2 <= env_min_y(rect) && env_max_y(rect) <= 2 * POS_LIMIT
                    + 2 && track_hits_box(
                    tracks@[c as int],
                    space,
                    rect,
                )) implies out@.contains(c) by {
                lemma_prune_sound(*self, tracks@, space, rect, c);
            }
        }
        out
    }
}

/// Skipping an entry whose root cell is out of bounds or misses the query
/// keeps the visited-prefix candidate set unchanged.
proof fn lemma_entry_extends_candidates(
    g: Grid,
    query: Rect,
    i: int,
    tracks: Seq<EnityTrack>,
    space: u128,
    enity: u64,
    out: Seq<u64>,
)
    requires
        0 <= i < g.chunks@.len(),
        !(key_in_bounds(g.chunks@[i].0) && crate::rect::env_overlap(
            root_cell_rect(g.chunks@[i].0),
            query,
        )),
        forall|c: u64|
            ((c as int) < tracks.len() && c != enity && (exists|ii: int|
                0 <= ii < i && key_in_bounds((#[trigger] g.chunks@[ii]).0)
                    && crate::rect::env_overlap(root_cell_rect(g.chunks@[ii].0), query)
                    && collect_spec(
                    g.chunks@[ii].1,
                    query,
                    root_cell_rect(g.chunks@[ii].0),
                    0,
                ).contains(c)) && tracks_overlap(tracks[enity as int], tracks[c as int], space))
                ==> out.contains(c),
    ensures
        forall|c: u64|
            ((c as int) < tracks.len() && c != enity && (exists|ii: int|
                0 <= ii < i + 1 && key_in_bounds((#[trigger] g.chunks@[ii]).0)
                    && crate::rect::env_overlap(root_cell_rect(g.chunks@[ii].0), query)
                    && collect_spec(
                    g.chunks@[ii].1,
                    query,
                    root_cell_rect(g.chunks@[ii].0),
                    0,
                ).contains(c)) && tracks_overlap(tracks[enity as int], tracks[c as int], space))
                ==> out.contains(c),
{
    assert forall|c: u64|
        ((c as int) < tracks.len() && c != enity && (exists|ii: int|
            0 <= ii < i + 1 && key_in_bounds((#[trigger] g.chunks@[ii]).0)
                && crate::rect::env_overlap(root_cell_rect(g.chunks@[ii].0), query)
                && collect_spec(
                g.chunks@[ii].1,
                query,
                root_cell_rect(g.chunks@[ii].0),
                0,
            ).contains(c)) && tracks_overlap(tracks[enity as int], tracks[c as int], space))
        implies out.contains(c) by {
        let ii = choose|ii: int|
            0 <= ii < i + 1 && key_in_bounds((#[trigger] g.chunks@[ii]).0)
                && crate::rect::env_overlap(root_cell_rect(g.chunks@[ii].0), query)
                && collect_spec(
                g.chunks@[ii].1,
                query,
                root_cell_rect(g.chunks@[ii].0),
                0,
            ).contains(c);
        assert(ii < i);
    }
}

/// Whether the list already holds the identifier.
fn adaptive_contains(v: &Vec<u64>, id: u64) -> (r: bool)
    ensures
        r == v@.contains(id),
{
    let n = v.len();
    let mut i: usize = 0;
    while i < n
        invariant
            i <= n,
            n == v@.len(),
            forall|j: int| 0 <= j < i ==> v@[j] != id,
        decreases n - i,
    {
        if v[i] == id {
            return true;
        }
        i = i + 1;
    }
    false
}

/// The envelope of a root cell, written out.
proof fn lemma_root_cell_env(k: (i64, i64))
    requires
        key_in_bounds(k),
    ensures
        rect_ok(root_cell_rect(k)),
        env_min_x(root_cell_rect(k)) == k.0 * (GRID_SIZE_L as int),
        env_max_x(root_cell_rect(k)) == k.0 * (GRID_SIZE_L as int) + GRID_SIZE_L,
        env_min_y(root_cell_rect(k)) == k.1 * (GRID_SIZE_L as int),
        env_max_y(root_cell_rect(k)) == k.1 * (GRID_SIZE_L as int) + GRID_SIZE_L,
{
    assert(-(6 * POS_LIMIT) <= k.0 * (GRID_SIZE_L as int) + 600 <= 6 * POS_LIMIT && -(6
        * POS_LIMIT) <= k.1 * (GRID_SIZE_L as int) + 600 <= 6 * POS_LIMIT) by (nonlinear_arith)
        requires
            -4_000_000_000 <= k.0 <= 4_000_000_000,
            -4_000_000_000 <= k.1 <= 4_000_000_000,
            GRID_SIZE_L == 1200i64,
            POS_LIMIT == 1_000_000_000_000i64,
    ;
    crate::hitbox::lemma_zero_rect_corners(root_cell_rect(k));
}

/// Pruning soundness for the whole index: a stored entity whose placement
/// envelope strictly overlaps the query envelope is a broad-phase candidate,
/// provided the index was built by insertions over these tracks (which give
/// `grid_placed` and `grid_covers`) and neither envelope is a degenerate
/// segment. Together with the exact query contracts, every such entity that
/// also truly overlaps is returned.
pub proof fn lemma_prune_sound(g: Grid, tracks: Seq<EnityTrack>, space: u128, q: Rect, c: u64)
    requires
        (c as int) < tracks.len(),
        track_wf(tracks[c as int]),
        forall|i: int| 0 <= i < g.chunks@.len() ==> chunk_wf((#[trigger] g.chunks@[i]).1, 0),
        grid_placed(g, tracks, space),
        grid_covers(g, tracks, space, c),
        crate::rect::env_overlap(view_env(tracks[c as int], space), q),
        env_min_x(view_env(tracks[c as int], space)) < env_max_x(
            view_env(tracks[c as int], space),
        ),
        env_min_y(view_env(tracks[c as int], space)) < env_max_y(
            view_env(tracks[c as int], space),
        ),
        env_min_x(q) < env_max_x(q),
        env_min_y(q) < env_max_y(q),
        -(2 * POS_LIMIT) - 2 <= env_min_x(q) && env_max_x(q) <= 2 * POS_LIMIT + 2,
        -(2 * POS_LIMIT) - 2 <= env_min_y(q) && env_max_y(q) <= 2 * POS_LIMIT + 2,
    ensures
        adaptive_candidate(g, q, c),
{
    let e = view_env(tracks[c as int], space);
    crate::track::lemma_view_env_ok(tracks[c as int], space);
    let gsz = GRID_SIZE_L as int;
    let px = if env_min_x(e) >= env_min_x(q) {
        env_min_x(e)
    } else {
        env_min_x(q)
    };
    let py = if env_min_y(e) >= env_min_y(q) {
        env_min_y(e)
    } else {
        env_min_y(q)
    };
    assert(px < env_max_x(e) && px < env_max_x(q));
    assert(py < env_max_y(e) && py < env_max_y(q));
    let k = ((px / gsz) as i64, (py / gsz) as i64);
    vstd::arithmetic::div_mod::lemma_div_is_ordered(-(2 * POS_LIMIT) - 2, px, gsz);
    vstd::arithmetic::div_mod::lemma_div_is_ordered(px, 2 * POS_LIMIT + 2, gsz);
    vstd::arithmetic::div_mod::lemma_div_is_ordered(-(2 * POS_LIMIT) - 2, py, gsz);
    vstd::arithmetic::div_mod::lemma_div_is_ordered(py, 2 * POS_LIMIT + 2, gsz);
    assert(key_in_bounds(k));
    assert(k.0 as int == px / gsz && k.1 as int == py / gsz);
    lemma_root_cell_env(k);
    vstd::arithmetic::div_mod::lemma_fundamental_div_mod(px, gsz);
    vstd::arithmetic::div_mod::lemma_mod_bound(px, gsz);
    vstd::arithmetic::div_mod::lemma_fundamental_div_mod(py, gsz);
    vstd::arithmetic::div_mod::lemma_mod_bound(py, gsz);
    assert(gsz * (px / gsz) == (px / gsz) * gsz) by (nonlinear_arith);
    assert(gsz * (py / gsz) == (py / gsz) * gsz) by (nonlinear_arith);
    assert((k.0 as int) * gsz <= px < (k.0 as int) * gsz + gsz);
    assert((k.1 as int) * gsz <= py < (k.1 as int) * gsz + gsz);
    assert(crate::rect::env_overlap(root_cell_rect(k), q));
    vstd::arithmetic::div_mod::lemma_div_is_ordered(env_min_x(e), px, gsz);
    vstd::arithmetic::div_mod::lemma_div_is_ordered(px, env_max_x(e), gsz);
    vstd::arithmetic::div_mod::lemma_div_is_ordered(env_min_y(e), py, gsz);
    vstd::arithmetic::div_mod::lemma_div_is_ordered(py, env_max_y(e), gsz);
    assert(covering_key(e, k));
    assert(cell_entry_has(g, k, c));
    let i = choose|i: int|
        0 <= i < g.chunks@.len() && (#[trigger] g.chunks@[i]).0 == k && chunk_has(
            g.chunks@[i].1,
            c,
        );
    lemma_collect_complete(g.chunks@[i].1, q, root_cell_rect(k), tracks, space, 0, c);
    assert(key_in_bounds(g.chunks@[i].0) && crate::rect::env_overlap(
        root_cell_rect(g.chunks@[i].0),
        q,
    ) && collect_spec(g.chunks@[i].1, q, root_cell_rect(g.chunks@[i].0), 0).contains(c));
}

} // verus!
