use oxidize::world::block::Block;
use oxidize::world::chunk::Chunk;
use oxidize::world::generation::{fill_chunk, world_sample_coord};
use oxidize::world::manager::World;
use oxidize::world::meshing::{chunk_faces, face_indices, world_block_at, ColumnFace};

#[test]
fn columns_are_grass_over_dirt_over_stone() {
    let c = fill_chunk(&vec![20i64; 256]);
    assert_eq!(c.get(3, 20, 4), Block::Grass);
    assert_eq!(c.get(3, 19, 4), Block::Dirt);
    assert_eq!(c.get(3, 14, 4), Block::Dirt);
    assert_eq!(c.get(3, 13, 4), Block::Stone);
    assert_eq!(c.get(3, 0, 4), Block::Stone);
    assert_eq!(c.get(3, 21, 4), Block::Air);
    assert_eq!(c.get(16, 0, 0), Block::Air);
}

#[test]
fn heights_are_clamped_into_the_chunk() {
    let mut raw = vec![-5i64; 256];
    raw[1] = 500;
    let c = fill_chunk(&raw);
    assert_eq!(c.get(0, 1, 0), Block::Grass);
    assert_eq!(c.get(0, 0, 0), Block::Dirt);
    assert_eq!(c.get(1, 62, 0), Block::Grass);
    assert_eq!(c.get(1, 63, 0), Block::Air);
}

#[test]
fn empty_chunk_reads_air() {
    assert_eq!(Chunk::empty().get(0, 0, 0), Block::Air);
}

#[test]
fn ensure_chunk_generates_once() {
    let mut w = World::new(7);
    assert!(w.get_chunk(0, 0).is_none());
    w.ensure_chunk(0, 0, &vec![10i64; 256]);
    w.ensure_chunk(0, 0, &vec![30i64; 256]);
    assert_eq!(w.get_chunk(0, 0).unwrap().get(0, 10, 0), Block::Grass);
    assert_eq!(w.get_chunk(0, 0).unwrap().get(0, 30, 0), Block::Air);
    assert_eq!(w.seed, 7);
}

#[test]
fn world_lookup_crosses_chunk_columns() {
    let mut w = World::new(1);
    w.ensure_chunk(-1, 0, &vec![5i64; 256]);
    assert_eq!(world_block_at(&w, -1, 5, 3), Block::Grass);
    assert_eq!(world_block_at(&w, -16, 4, 0), Block::Dirt);
    assert_eq!(world_block_at(&w, 0, 5, 3), Block::Air);
    assert_eq!(world_block_at(&w, -1, 64, 3), Block::Air);
    assert_eq!(world_sample_coord(-1, 15), -1);
}

#[test]
fn flat_lone_chunk_shows_tops_and_outer_walls() {
    let mut w = World::new(1);
    w.ensure_chunk(0, 0, &vec![1i64; 256]);
    let faces = chunk_faces(&w, 0, 0);
    let tops = faces.iter().filter(|f| f.face == ColumnFace::Top).count();
    assert_eq!(tops, 256);
    // two layers high, sixteen wide, four walls
    let sides = faces.len() - tops;
    assert_eq!(sides, 2 * 16 * 4);
    assert!(faces.iter().filter(|f| f.face == ColumnFace::Top).all(|f| f.tile == (0, 0)));
    assert!(faces.iter().any(|f| f.face == ColumnFace::West && f.y == 0 && f.tile == (1, 0)));
    assert!(faces.iter().any(|f| f.face == ColumnFace::West && f.y == 1 && f.tile == (3, 0)));
}

#[test]
fn neighbouring_chunk_hides_shared_wall() {
    let mut w = World::new(1);
    w.ensure_chunk(0, 0, &vec![1i64; 256]);
    w.ensure_chunk(1, 0, &vec![1i64; 256]);
    let faces = chunk_faces(&w, 0, 0);
    assert!(!faces.iter().any(|f| f.face == ColumnFace::East));
    assert!(faces.iter().any(|f| f.face == ColumnFace::West));
}

#[test]
fn face_indices_make_two_triangles_per_face() {
    assert_eq!(face_indices(2), vec![0, 1, 2, 2, 1, 3, 4, 5, 6, 6, 5, 7]);
}

#[test]
fn each_visible_face_is_listed_once() {
    let mut w = World::new(1);
    w.ensure_chunk(0, 0, &vec![3i64; 256]);
    let faces = chunk_faces(&w, 0, 0);
    let mut keys: Vec<(i32, i32, i32, u8)> = faces.iter().map(|f| (f.x, f.y, f.z, f.face as u8)).collect();
    let n = keys.len();
    keys.sort();
    keys.dedup();
    assert_eq!(keys.len(), n);
}
