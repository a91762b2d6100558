use oxidize::engine::block::{Block, STONE};
use oxidize::engine::chunk::{Chunk, ChunkPos};
use oxidize::engine::world::{chunk_coord, ChunkGenResult, StreamConfig, World, DEFAULT_RENDER_DISTANCE, UNLOAD_MARGIN};

fn small_config(max_new: usize, max_rebuilds: usize) -> StreamConfig {
    StreamConfig {
        chunk_size: 2,
        unload_margin: UNLOAD_MARGIN,
        band_min: 0,
        band_max: 0,
        max_new_chunks_per_frame: max_new,
        max_chunk_receives_per_frame: 64,
        max_mesh_rebuilds_per_frame: max_rebuilds,
    }
}

fn solid_result(pos: ChunkPos) -> ChunkGenResult {
    ChunkGenResult { pos, blocks: vec![Block::Solid(STONE); 8] }
}

fn loaded_positions(w: &World) -> Vec<(i32, i32, i32)> {
    let mut v: Vec<(i32, i32, i32)> = w.chunks.iter().map(|c| (c.pos.x, c.pos.y, c.pos.z)).collect();
    v.sort();
    v
}

/// Runs frames at `(vx, vz)`, generating every request synchronously, until
/// nothing is pending.
fn settle(w: &mut World, vx: i32, vz: i32) {
    let mut results: Vec<ChunkGenResult> = Vec::new();
    for _ in 0..100 {
        let requested = w.update_chunks(vx, vz, std::mem::take(&mut results));
        results = requested.into_iter().map(solid_result).collect();
        if results.is_empty() && w.pending_count() == 0 {
            return;
        }
    }
    panic!("streaming did not settle");
}

#[test]
fn one_update_cycle_loads_the_square_around_the_viewpoint() {
    let mut w = World::new(small_config(64, 4));
    w.set_render_distance(2);
    let requested = w.update_chunks(0, 0, Vec::new());
    assert_eq!(requested.len(), 25);
    assert_eq!(w.pending_count(), 25);
    let results: Vec<ChunkGenResult> = requested.into_iter().map(solid_result).collect();
    let again = w.update_chunks(0, 0, results);
    assert!(again.is_empty());
    assert_eq!(w.pending_count(), 0);
    let mut expected = Vec::new();
    for x in -2..=2 {
        for z in -2..=2 {
            expected.push((x, 0, z));
        }
    }
    expected.sort();
    assert_eq!(loaded_positions(&w), expected);
}

#[test]
fn requests_come_nearest_first_and_are_capped() {
    let mut w = World::new(small_config(5, 4));
    w.set_render_distance(2);
    let requested = w.update_chunks(0, 0, Vec::new());
    assert_eq!(requested.len(), 5);
    assert_eq!(requested[0], ChunkPos { x: 0, y: 0, z: 0 });
    let d: Vec<i32> = requested.iter().map(|p| p.x * p.x + p.z * p.z).collect();
    assert!(d.windows(2).all(|p| p[0] <= p[1]));
    assert!(d[1..].iter().all(|&x| x == 1));
    // nothing already pending is requested again
    let next = w.update_chunks(0, 0, Vec::new());
    assert_eq!(next.len(), 5);
    assert!(next.iter().all(|p| !requested.contains(p)));
}

#[test]
fn pending_and_loaded_stay_exclusive() {
    let mut w = World::new(small_config(7, 4));
    w.set_render_distance(2);
    let mut results: Vec<ChunkGenResult> = Vec::new();
    for _ in 0..6 {
        let requested = w.update_chunks(0, 0, std::mem::take(&mut results));
        for c in w.chunks.iter() {
            assert!(!w.is_pending(c.pos));
        }
        results = requested.into_iter().map(solid_result).collect();
    }
}

#[test]
fn moving_evicts_beyond_render_distance_plus_margin() {
    let mut w = World::new(small_config(64, 4));
    w.set_render_distance(2);
    settle(&mut w, 0, 0);
    assert_eq!(w.chunk_count(), 25);
    settle(&mut w, 3, 0);
    let reach = 2 + UNLOAD_MARGIN;
    for c in w.chunks.iter() {
        assert!((c.pos.x - 3).abs() <= reach && c.pos.z.abs() <= reach);
    }
    // chunks of the old square within reach were kept
    assert!(w.find_chunk(ChunkPos { x: -1, y: 0, z: 0 }).is_some());
    assert!(w.find_chunk(ChunkPos { x: -2, y: 0, z: 0 }).is_none());
    assert_eq!(w.chunk_count(), 20 + 15);
}

#[test]
fn stale_results_are_discarded() {
    let mut w = World::new(small_config(64, 4));
    w.set_render_distance(1);
    w.update_chunks(0, 0, Vec::new());
    let far = ChunkPos { x: 9, y: 0, z: 0 };
    w.update_chunks(0, 0, vec![solid_result(far)]);
    assert!(w.find_chunk(far).is_none());
}

#[test]
fn arriving_chunk_dirties_its_neighbours() {
    let mut w = World::new(small_config(64, 64));
    w.set_render_distance(1);
    settle(&mut w, 0, 0);
    w.rebuild_dirty();
    assert!(w.chunks.iter().all(|c| !c.dirty));
    w.receive_chunk(solid_result(ChunkPos { x: 0, y: 0, z: 0 }));
    let dirty: Vec<(i32, i32)> = w.chunks.iter().filter(|c| c.dirty).map(|c| (c.pos.x, c.pos.z)).collect();
    let mut sorted = dirty.clone();
    sorted.sort();
    assert_eq!(sorted, vec![(-1, 0), (0, -1), (0, 0), (0, 1), (1, 0)]);
}

#[test]
fn dirty_chunks_resolve_within_bounded_frames() {
    let mut w = World::new(small_config(64, 4));
    w.set_render_distance(2);
    settle(&mut w, 0, 0);
    let mut frames = 0;
    while w.chunks.iter().any(|c| c.dirty) {
        w.rebuild_dirty();
        frames += 1;
        assert!(frames <= 7);
    }
    assert_eq!(frames, 7);
}

#[test]
fn rebuilds_go_nearest_first() {
    let mut w = World::new(small_config(64, 1));
    w.set_render_distance(2);
    settle(&mut w, 0, 0);
    w.rebuild_dirty();
    let clean: Vec<ChunkPos> = w.chunks.iter().filter(|c| !c.dirty).map(|c| c.pos).collect();
    assert_eq!(clean, vec![ChunkPos { x: 0, y: 0, z: 0 }]);
}

#[test]
fn interior_boundary_faces_are_culled_after_rebuild() {
    let mut w = World::new(small_config(64, 64));
    w.set_render_distance(1);
    settle(&mut w, 0, 0);
    w.rebuild_dirty();
    let centre = &w.chunks[w.find_chunk(ChunkPos { x: 0, y: 0, z: 0 }).unwrap()];
    // only the top and bottom of the centre chunk are exposed
    assert_eq!(centre.mesh.as_ref().unwrap().quads.len(), 2);
}

#[test]
fn render_distance_is_at_least_one() {
    let mut w = World::new(StreamConfig::standard());
    assert_eq!(w.get_render_distance(), DEFAULT_RENDER_DISTANCE);
    w.set_render_distance(0);
    assert_eq!(w.get_render_distance(), 1);
    w.set_render_distance(-7);
    assert_eq!(w.get_render_distance(), 1);
    w.set_render_distance(5000);
    assert_eq!(w.get_render_distance(), 5000);
}

#[test]
fn chunk_coordinate_is_floor_division() {
    assert_eq!(chunk_coord(0, 32), 0);
    assert_eq!(chunk_coord(31, 32), 0);
    assert_eq!(chunk_coord(32, 32), 1);
    assert_eq!(chunk_coord(-1, 32), -1);
    assert_eq!(chunk_coord(-32, 32), -1);
    assert_eq!(chunk_coord(-33, 32), -2);
}

#[test]
fn new_chunk_is_empty_and_dirty() {
    let c = Chunk::new(ChunkPos { x: 1, y: 2, z: 3 });
    assert_eq!(c.blocks.len(), 32 * 32 * 32);
    assert!(c.dirty);
    assert!(c.blocks.iter().all(|b| *b == Block::Air));
    assert_eq!(c.get_block(31, 31, 31), Block::Air);
    assert_eq!(c.origin(), (32, 64, 96));
    assert_eq!(Chunk::new(ChunkPos { x: -1, y: 0, z: 2 }).origin(), (-32, 0, 64));
}

#[test]
fn full_band_settles_to_the_square_times_the_layers() {
    let mut config = small_config(64, 4);
    config.band_min = -1;
    config.band_max = 4;
    config.max_chunk_receives_per_frame = 64;
    let mut w = World::new(config);
    w.set_render_distance(2);
    settle(&mut w, 0, 0);
    let mut expected = Vec::new();
    for x in -2..=2 {
        for y in -1..=4 {
            for z in -2..=2 {
                expected.push((x, y, z));
            }
        }
    }
    expected.sort();
    assert_eq!(loaded_positions(&w), expected);
    assert_eq!(w.pending_count(), 0);
}

#[test]
fn stale_result_leaves_pending_without_loading() {
    let mut w = World::new(small_config(64, 4));
    w.set_render_distance(1);
    let requested = w.update_chunks(0, 0, Vec::new());
    let corner = ChunkPos { x: 1, y: 0, z: 1 };
    assert!(requested.contains(&corner));
    // the viewpoint moves away before the corner's result arrives
    w.update_chunks(5, 0, Vec::new());
    assert!(!w.is_pending(corner));
    w.update_chunks(5, 0, vec![solid_result(corner)]);
    assert!(w.find_chunk(corner).is_none());
    assert!(!w.is_pending(corner));
}

#[test]
fn latest_result_for_a_coordinate_wins() {
    let mut w = World::new(small_config(64, 4));
    w.set_render_distance(1);
    w.update_chunks(0, 0, Vec::new());
    let p = ChunkPos { x: 0, y: 0, z: 0 };
    let first = ChunkGenResult { pos: p, blocks: vec![Block::Solid(STONE); 8] };
    let second = ChunkGenResult { pos: p, blocks: vec![Block::Air; 8] };
    w.update_chunks(0, 0, vec![first, second]);
    let c = &w.chunks[w.find_chunk(p).unwrap()];
    assert!(c.dirty);
    assert!(c.blocks.iter().all(|b| *b == Block::Air));
    assert_eq!(w.chunks.iter().filter(|c| c.pos == p).count(), 1);
}
