use oxidize::engine::block::{Block, GRASS, STONE, WATER};
use oxidize::engine::border::{collect_border_face, get_block_from_neighbors_with_blocks, NeighborBorder};
use oxidize::engine::chunk::{index, is_transparent, Chunk, ChunkPos};
use oxidize::engine::face::Face;
use oxidize::engine::greedy::{greedy_rects, Rect};
use oxidize::engine::mesher::{build_meshes, Quad};
use oxidize::engine::vertex::{get_block_texture, mesh_indices, mesh_vertices, tile_cell, TILE_GRASS_SIDE, TILE_GRASS_TOP, TILE_DIRT, TILE_MISSING, TILE_WATER};

fn filled(size: usize, b: Block) -> Chunk {
    let mut c = Chunk::with_size(ChunkPos { x: 0, y: 0, z: 0 }, size);
    for y in 0..size {
        for z in 0..size {
            for x in 0..size {
                c.set_block(x, y, z, b);
            }
        }
    }
    c
}

#[test]
fn uniform_mask_is_one_rectangle() {
    let mask = vec![3u16; 5 * 4];
    let rs = greedy_rects(&mask, 5, 4);
    assert_eq!(rs, vec![Rect { u: 0, v: 0, w: 5, h: 4, key: 3 }]);
}

#[test]
fn empty_mask_has_no_rectangles() {
    let mask = vec![0u16; 6 * 6];
    assert!(greedy_rects(&mask, 6, 6).is_empty());
}

#[test]
fn checkerboard_mask_is_one_rectangle_per_cell() {
    let mut mask = vec![0u16; 4 * 4];
    for v in 0..4 {
        for u in 0..4 {
            mask[v * 4 + u] = if (u + v) % 2 == 0 { 1 } else { 2 };
        }
    }
    let rs = greedy_rects(&mask, 4, 4);
    assert_eq!(rs.len(), 16);
    assert!(rs.iter().all(|r| r.w == 1 && r.h == 1));
}

#[test]
fn greedy_grows_along_u_then_v() {
    // row 0: 1 1 2 ; row 1: 1 1 0 ; row 2: 0 0 0
    let mask = vec![1u16, 1, 2, 1, 1, 0, 0, 0, 0];
    let rs = greedy_rects(&mask, 3, 3);
    assert_eq!(rs, vec![Rect { u: 0, v: 0, w: 2, h: 2, key: 1 }, Rect { u: 2, v: 0, w: 1, h: 1, key: 2 }]);
}

#[test]
fn filled_chunk_emits_six_quads() {
    let mut c = filled(8, Block::Solid(STONE));
    c.rebuild_mesh(&NeighborBorder::empty(8));
    assert!(!c.dirty);
    assert!(c.transparent_mesh.is_none());
    let quads = c.mesh.as_ref().expect("opaque mesh").quads.clone();
    assert_eq!(quads.len(), 6);
    let vertices = mesh_vertices(&quads);
    assert_eq!(vertices.len(), 24);
    for (i, q) in quads.iter().enumerate() {
        assert_eq!((q.u, q.v, q.w, q.h), (0, 0, 8, 8));
        let (dx, dy, dz) = q.face.step();
        let outer = if dx + dy + dz > 0 { 7 } else { 0 };
        assert_eq!(q.layer, outer);
        for k in 0..4 {
            let vert = vertices[4 * i + k];
            assert_eq!(vert.normal, (dx, dy, dz));
            // every corner lies on the outward plane of the cube
            let plane = if dx + dy + dz > 0 { 8 } else { 0 };
            let coord = if dx != 0 { vert.pos.0 } else if dy != 0 { vert.pos.1 } else { vert.pos.2 };
            assert_eq!(coord, plane);
        }
    }
    let faces: Vec<Face> = quads.iter().map(|q| q.face).collect();
    for f in [Face::Left, Face::Right, Face::Bottom, Face::Top, Face::Back, Face::Front] {
        assert_eq!(faces.iter().filter(|g| **g == f).count(), 1);
    }
}

#[test]
fn filled_water_chunk_goes_to_transparent_mesh() {
    let mut c = filled(4, Block::Solid(WATER));
    c.rebuild_mesh(&NeighborBorder::empty(4));
    assert!(c.mesh.is_none());
    assert_eq!(c.transparent_mesh.as_ref().unwrap().quads.len(), 6);
}

#[test]
fn no_face_between_solid_voxels() {
    let mut c = Chunk::with_size(ChunkPos { x: 0, y: 0, z: 0 }, 4);
    c.set_block(1, 1, 1, Block::Solid(STONE));
    c.set_block(1, 2, 1, Block::Solid(STONE));
    let (opaque, clear) = build_meshes(&c.blocks, &NeighborBorder::empty(4));
    assert!(clear.is_empty());
    // a 1x2x1 column: two quads per side merge into one, plus a top and a bottom
    assert_eq!(opaque.len(), 6);
    assert!(!opaque.iter().any(|q| q.face == Face::Top && q.layer == 1));
    assert!(!opaque.iter().any(|q| q.face == Face::Bottom && q.layer == 2));
}

#[test]
fn stone_shows_face_toward_water_but_not_the_reverse() {
    let mut c = Chunk::with_size(ChunkPos { x: 0, y: 0, z: 0 }, 2);
    c.set_block(0, 0, 0, Block::Solid(STONE));
    c.set_block(1, 0, 0, Block::Solid(WATER));
    let (opaque, clear) = build_meshes(&c.blocks, &NeighborBorder::empty(2));
    assert!(opaque.iter().any(|q| q.face == Face::Right && q.layer == 0 && q.u == 0 && q.v == 0));
    assert!(!clear.iter().any(|q| q.face == Face::Left && q.layer == 1));
    assert_eq!(opaque.len(), 6);
    assert_eq!(clear.len(), 5);
}

#[test]
fn water_faces_toward_water_are_hidden() {
    let mut c = Chunk::with_size(ChunkPos { x: 0, y: 0, z: 0 }, 2);
    c.set_block(0, 0, 0, Block::Solid(WATER));
    c.set_block(1, 0, 0, Block::Solid(WATER));
    let (opaque, clear) = build_meshes(&c.blocks, &NeighborBorder::empty(2));
    assert!(opaque.is_empty());
    // the two cubes merge into a 2x1 box: one quad per direction
    assert_eq!(clear.len(), 6);
}

#[test]
fn neighbour_border_hides_boundary_faces() {
    let size = 4;
    let mut c = filled(size, Block::Solid(STONE));
    let right = filled(size, Block::Solid(STONE));
    let mut border = NeighborBorder::empty(size);
    border.set_layer(Face::Right, collect_border_face(&right, Face::Right));
    c.rebuild_mesh(&border);
    let quads = &c.mesh.as_ref().unwrap().quads;
    assert_eq!(quads.len(), 5);
    assert!(!quads.iter().any(|q| q.face == Face::Right));
}

#[test]
fn clean_chunk_is_not_rebuilt() {
    let mut c = filled(2, Block::Solid(STONE));
    c.rebuild_mesh(&NeighborBorder::empty(2));
    let before = c.mesh.as_ref().unwrap().quads.clone();
    c.set_block(0, 0, 0, Block::Air);
    assert!(c.dirty);
    c.dirty = false;
    c.rebuild_mesh(&NeighborBorder::empty(2));
    assert_eq!(c.mesh.as_ref().unwrap().quads, before);
}

#[test]
fn lookup_reads_chunk_border_or_air() {
    let size = 2;
    let mut c = Chunk::with_size(ChunkPos { x: 0, y: 0, z: 0 }, size);
    c.set_block(1, 0, 1, Block::Solid(GRASS));
    let mut top = Chunk::with_size(ChunkPos { x: 0, y: 1, z: 0 }, size);
    top.set_block(1, 0, 0, Block::Solid(STONE));
    let mut border = NeighborBorder::empty(size);
    border.set_layer(Face::Top, collect_border_face(&top, Face::Top));
    assert_eq!(get_block_from_neighbors_with_blocks(1, 0, 1, &border, &c.blocks), Block::Solid(GRASS));
    assert_eq!(get_block_from_neighbors_with_blocks(1, 2, 0, &border, &c.blocks), Block::Solid(STONE));
    assert_eq!(get_block_from_neighbors_with_blocks(0, 2, 0, &border, &c.blocks), Block::Air);
    assert_eq!(get_block_from_neighbors_with_blocks(-1, 0, 0, &border, &c.blocks), Block::Air);
    assert_eq!(get_block_from_neighbors_with_blocks(-1, -1, 0, &border, &c.blocks), Block::Air);
}

#[test]
fn index_is_y_major_then_z_then_x() {
    assert_eq!(index(32, 1, 0, 0), 1);
    assert_eq!(index(32, 0, 0, 1), 32);
    assert_eq!(index(32, 0, 1, 0), 1024);
    assert_eq!(index(8, 7, 7, 7), 511);
}

#[test]
fn transparency_is_water_only() {
    assert!(is_transparent(Block::Solid(WATER)));
    assert!(!is_transparent(Block::Solid(STONE)));
    assert!(!is_transparent(Block::Air));
}

#[test]
fn grass_textures_depend_on_face() {
    assert_eq!(get_block_texture(GRASS, Face::Top), (TILE_GRASS_TOP, 100));
    assert_eq!(get_block_texture(GRASS, Face::Bottom), (TILE_DIRT, 100));
    assert_eq!(get_block_texture(GRASS, Face::Left), (TILE_GRASS_SIDE, 100));
    assert_eq!(get_block_texture(WATER, Face::Top), (TILE_WATER, 70));
    assert_eq!(get_block_texture(200, Face::Top), (TILE_MISSING, 100));
    assert_eq!(tile_cell(21), (5, 1));
}

#[test]
fn shade_per_direction() {
    assert_eq!(Face::Top.shade_percent(), 100);
    assert_eq!(Face::Bottom.shade_percent(), 50);
    assert_eq!(Face::Left.shade_percent(), 70);
    assert_eq!(Face::Front.shade_percent(), 80);
}

#[test]
fn quad_vertices_wind_counter_clockwise_from_outside() {
    let q = Quad { face: Face::Top, layer: 3, u: 1, v: 2, w: 2, h: 3, material: GRASS };
    let vs = mesh_vertices(&vec![q]);
    let p: Vec<(i32, i32, i32)> = vs.iter().map(|v| v.pos).collect();
    assert_eq!(p, vec![(1, 4, 5), (3, 4, 5), (3, 4, 2), (1, 4, 2)]);
    let e1 = (p[1].0 - p[0].0, p[1].1 - p[0].1, p[1].2 - p[0].2);
    let e2 = (p[2].0 - p[0].0, p[2].1 - p[0].1, p[2].2 - p[0].2);
    let cross_y = e1.2 * e2.0 - e1.0 * e2.2;
    assert!(cross_y > 0);
    assert_eq!(vs[0].tile, TILE_GRASS_TOP);
    assert_eq!(vs[0].shade, 100);
}

#[test]
fn indices_make_two_triangles_per_quad() {
    assert_eq!(mesh_indices(2), vec![0, 1, 2, 0, 2, 3, 4, 5, 6, 4, 6, 7]);
    assert!(mesh_indices(0).is_empty());
}
