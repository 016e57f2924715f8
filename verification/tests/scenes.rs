use scene_core::base::EnityBase;
use scene_core::render::{RenderFrame, Texture, ViewPort};
use scene_core::grid::{Grid, GridChunk};
use scene_core::handle::WeakHash;
use scene_core::position::MoveEvent;
use scene_core::rect::Rect;
use scene_core::scene::NormalScene;
use scene_core::simple_grid::SimpleGrid;
use scene_core::track::EnityTrack;
use scene_core::vector::Vector;
use scene_core::view::EnityView;

fn plain_entity(name: &str, speed: i64) -> EnityTrack {
    let base = EnityBase::new(name.to_string(), Vec::new(), speed);
    let view = EnityView::new(
        vec![(
            Rect::new(Vector(0, 0), Vector(10, 10)),
            scene_core::render::Texture::default(),
        )],
        vec![Rect::new(Vector(0, 0), Vector(10, 10))],
    );
    EnityTrack::new(base, view)
}

#[test]
fn index_round_trip() {
    // Inserting an entity whose envelope overlaps the origin cell and then
    // querying that region returns it; after a clear the same query is empty.
    let tracks = vec![plain_entity("e", 0)];
    let space = 1u128;
    let mut grid = SimpleGrid::new();
    grid.insert(&tracks, space, 0);
    let query = Rect::new(Vector(0, 0), Vector(10, 10));
    let hits = grid.collision_by_rect(&tracks, space, query);
    assert_eq!(hits, vec![0]);
    grid.clear();
    let hits_after = grid.collision_by_rect(&tracks, space, query);
    assert!(hits_after.is_empty());
}

#[test]
fn query_near_excludes_self_and_verifies() {
    let mut tracks = vec![plain_entity("a", 0), plain_entity("b", 0), plain_entity("c", 0)];
    let space = 1u128;
    tracks[1].set_position(space, Vector(4, 0));
    tracks[2].set_position(space, Vector(500, 500));
    let mut grid = SimpleGrid::new();
    grid.insert(&tracks, space, 0);
    grid.insert(&tracks, space, 1);
    grid.insert(&tracks, space, 2);
    let near = grid.collision(&tracks, space, 0);
    // Only the overlapping neighbor comes back: not itself, not the far one.
    assert_eq!(near, vec![1]);
}

#[test]
fn adaptive_grid_round_trip() {
    let tracks = vec![plain_entity("a", 0), plain_entity("b", 0)];
    let space = 1u128;
    let mut grid = Grid::new();
    grid.insert(&tracks, space, 0);
    grid.insert(&tracks, space, 1);
    let near = grid.collision(&tracks, space, 0);
    assert_eq!(near, vec![1]);
    let by_rect = grid.collision_by_rect(&tracks, space, Rect::new(Vector(0, 0), Vector(4, 4)));
    assert_eq!(by_rect.len(), 2);
}

#[test]
fn adaptive_chunk_subdivides_and_clears() {
    // Past the capacity threshold the root block becomes a branch; the
    // entries all stay findable, and a clear empties everything.
    let mut tracks = Vec::new();
    for i in 0..12 {
        let mut t = plain_entity("x", 0);
        t.set_position(1u128, Vector(20 * i, 0));
        tracks.push(t);
    }
    let mut chunk = GridChunk::default();
    let cell = Rect::new(Vector(600, 600), Vector(1200, 1200));
    for id in 0..12u64 {
        chunk = chunk.insert(&tracks, 1u128, id, &cell);
    }
    let everything = Rect::new(Vector(0, 0), Vector(10_000, 10_000));
    let found = chunk.collect(&everything, &cell);
    for id in 0..12u64 {
        assert!(found.contains(&id));
    }
    let (cleared, _) = chunk.clear();
    let found_after = cleared.collect(&everything, &cell);
    assert!(found_after.is_empty());
}

#[test]
fn lazy_deletion_after_rebuild() {
    // A destroyed entity disappears from the live set and from query results
    // at the next rebuild, while its record stays reachable by identifier.
    let mut scene = NormalScene::new(Vector(1000, 1000));
    let space = scene.uuid();
    let a = scene.insert(plain_entity("a", 0));
    let b = scene.insert(plain_entity("b", 0));
    scene.entities[b as usize].set_position(space, Vector(4, 0));
    scene.update(16);
    assert_eq!(scene.collision(a), vec![b]);
    scene.entities[b as usize].base.destroy();
    scene.update(16);
    assert!(scene.collision(a).is_empty());
    // The record itself is not evicted; callers must check the flag.
    assert!(scene.get(b).is_some());
    assert!(scene.get(b).unwrap().base().is_destroy());
}

#[test]
fn collision_layer_gating() {
    // Equal nonzero layers collide and get pushed apart; different layers and
    // layer zero never trigger resolution.
    let mut scene = NormalScene::new(Vector(1000, 1000));
    let space = scene.uuid();
    let a = scene.insert(plain_entity("a", 0));
    let b = scene.insert(plain_entity("b", 0));
    scene.entities[a as usize].set_position(space, Vector(1, 0));
    scene.update(16);
    // Both on layer 1: each is nudged two units away from the other.
    assert_eq!(scene.entities[a as usize].get_position(space), Vector(3, 0));
    assert_eq!(scene.entities[b as usize].get_position(space), Vector(-2, 0));

    let mut quiet = NormalScene::new(Vector(1000, 1000));
    let qspace = quiet.uuid();
    let c = quiet.insert(plain_entity("c", 0));
    let d = quiet.insert(plain_entity("d", 0));
    quiet.entities[c as usize].set_position(qspace, Vector(1, 0));
    quiet.entities[d as usize].base.set_collision(2);
    quiet.update(16);
    assert_eq!(quiet.entities[c as usize].get_position(qspace), Vector(1, 0));
    assert_eq!(quiet.entities[d as usize].get_position(qspace), Vector(0, 0));

    let mut none = NormalScene::new(Vector(1000, 1000));
    let nspace = none.uuid();
    let e = none.insert(plain_entity("e", 0));
    let f = none.insert(plain_entity("f", 0));
    none.entities[e as usize].set_position(nspace, Vector(1, 0));
    none.entities[e as usize].base.set_no_collision();
    none.update(16);
    assert_eq!(none.entities[e as usize].get_position(nspace), Vector(1, 0));
    assert_eq!(none.entities[f as usize].get_position(nspace), Vector(0, 0));
}

#[test]
fn follow_on_destroyed_keeps_position() {
    // F follows T; T is destroyed before the tick; F does not move that tick.
    let mut scene = NormalScene::new(Vector(1000, 1000));
    let space = scene.uuid();
    let t = scene.insert(plain_entity("target", 0));
    let f = scene.insert(plain_entity("follower", 5));
    scene.entities[t as usize].set_position(space, Vector(100, 0));
    scene.entities[f as usize].set_position(space, Vector(50, 50));
    scene.entities[f as usize].set_action(space, MoveEvent::Following(WeakHash::new(t)));
    scene.entities[t as usize].base.destroy();
    scene.update(1000);
    assert_eq!(scene.entities[f as usize].get_position(space), Vector(50, 50));
}

#[test]
fn follow_alive_moves_toward_target() {
    let mut scene = NormalScene::new(Vector(1000, 1000));
    let space = scene.uuid();
    let t = scene.insert(plain_entity("target", 0));
    let f = scene.insert(plain_entity("follower", 5));
    scene.entities[t as usize].set_position(space, Vector(200, 0));
    scene.entities[f as usize].set_position(space, Vector(100, 0));
    // Keep them out of collision range so only the follow moves anyone.
    scene.entities[f as usize].set_action(space, MoveEvent::Following(WeakHash::new(t)));
    scene.update(1000);
    assert_eq!(scene.entities[f as usize].get_position(space), Vector(105, 0));
}

#[test]
fn scene_update_integrates_motion() {
    let mut scene = NormalScene::new(Vector(1000, 1000));
    let space = scene.uuid();
    let a = scene.insert(plain_entity("mover", 2));
    scene.entities[a as usize].set_action(space, MoveEvent::Moveto(Vector(100, 0)));
    scene.update(1000);
    assert_eq!(scene.entities[a as usize].get_position(space), Vector(2, 0));
}

#[test]
fn remove_keeps_record_but_leaves_live_set() {
    let mut scene = NormalScene::new(Vector(1000, 1000));
    let a = scene.insert(plain_entity("a", 0));
    scene.remove(a);
    scene.update(16);
    assert!(scene.get(a).is_some());
    assert!(scene.collision_by_rect(Rect::new(Vector(0, 0), Vector(50, 50))).is_empty());
}

#[test]
fn weak_hash_upgrade() {
    let tracks = vec![plain_entity("a", 0)];
    assert_eq!(WeakHash::new(0).upgrade(&tracks), Some(0));
    assert_eq!(WeakHash::new(5).upgrade(&tracks), None);
    assert_eq!(WeakHash::null().upgrade(&tracks), None);
}

#[test]
fn union_envelope_contains_odd_span() {
    // Two hit boxes spanning x in [-1, 6]: an odd span. The derived envelope
    // must still contain the whole union; its top edge may exceed it by at
    // most one unit.
    let base = EnityBase::new("odd".to_string(), Vec::new(), 0);
    let view = EnityView::new(
        Vec::new(),
        vec![
            Rect::new(Vector(0, 0), Vector(2, 2)),
            Rect::new(Vector(5, 0), Vector(2, 2)),
        ],
    );
    let t = EnityTrack::new(base, view);
    let envelope = t.hitbox(1u128);
    let (max, min) = envelope.maxmin();
    assert_eq!(min.0, -1);
    assert!(max.0 >= 6 && max.0 <= 7);
    assert_eq!(min.1, -1);
    assert!(max.1 >= 1 && max.1 <= 2);
}

#[test]
fn adaptive_negative_coordinates_found() {
    // Nine clustered entities at negative coordinates force the root block
    // of their cell to subdivide; a query over the cluster must still find
    // every one of them, so child placement and pruning agree on the
    // negative side of the origin.
    let space = 1u128;
    let mut tracks = Vec::new();
    for _ in 0..9 {
        let mut t = plain_entity("n", 0);
        t.set_position(space, Vector(-300, -300));
        tracks.push(t);
    }
    let mut grid = Grid::new();
    for id in 0..9u64 {
        grid.insert(&tracks, space, id);
    }
    let near = grid.collision(&tracks, space, 0);
    assert_eq!(near.len(), 8);
    for id in 1..9u64 {
        assert!(near.contains(&id));
    }
}

#[test]
fn frame_sorts_by_draw_order() {
    let mut frame = RenderFrame::new();
    frame.push((Rect::new(Vector(0, 5), Vector(1, 1)), Texture::default()));
    frame.push((Rect::new(Vector(0, 1), Vector(1, 1)), Texture::default()));
    frame.push((Rect::new(Vector(0, 3), Vector(1, 1)), Texture::default()));
    frame.sort();
    let drawn = frame.get();
    assert_eq!(drawn.len(), 3);
    assert_eq!(drawn[0].0.position.1, 1);
    assert_eq!(drawn[1].0.position.1, 3);
    assert_eq!(drawn[2].0.position.1, 5);
}

#[test]
fn viewport_maps_points() {
    let mut vp = ViewPort::new();
    vp.set_position(Vector(100, 100));
    vp.set_size(Vector(50, 40));
    assert_eq!(vp.map_to_viewport(Vector(0, 0)), Vector(100, 100));
    assert_eq!(vp.map_to_viewport(Vector(1, -1)), Vector(120, 80));
}

#[test]
fn render_skips_destroyed() {
    // After a destroyed entity leaves the live set, the frame holds only the
    // background and the surviving entity's boxes.
    let mut scene = NormalScene::new(Vector(1000, 1000));
    let a = scene.insert(plain_entity("a", 0));
    let b = scene.insert(plain_entity("b", 0));
    let mut before = RenderFrame::new();
    scene.render(&mut before);
    assert_eq!(before.get().len(), 3);
    scene.entities[a as usize].base.destroy();
    scene.update(16);
    let mut frame = RenderFrame::new();
    scene.render(&mut frame);
    assert_eq!(frame.get().len(), 2);
    let _ = b;
}
