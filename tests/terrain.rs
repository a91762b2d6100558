use oxidize::engine::block::{Block, BEDROCK, DIRT, GRASS, SAND, STONE, WATER};
use oxidize::engine::chunk::{index, ChunkPos};
use oxidize::engine::terrain::{generate_terrain_data, world_column, TerrainConfig, TerrainSamples};

fn samples(size: usize, surface: i32) -> TerrainSamples {
    TerrainSamples {
        surface: vec![surface; size * size],
        bedrock: vec![false; size * size * size],
        cave: vec![false; size * size * size],
    }
}

#[test]
fn column_layers_from_surface_down() {
    let cfg = TerrainConfig::standard();
    let s = samples(8, 30);
    let blocks = generate_terrain_data(&cfg, ChunkPos { x: 0, y: 3, z: 0 }, 8, &s);
    // world y = 24 + local y
    assert_eq!(blocks[index(8, 0, 6, 0)], Block::Solid(GRASS));
    assert_eq!(blocks[index(8, 0, 5, 0)], Block::Solid(DIRT));
    assert_eq!(blocks[index(8, 0, 2, 0)], Block::Solid(DIRT));
    assert_eq!(blocks[index(8, 0, 1, 0)], Block::Solid(STONE));
    assert_eq!(blocks[index(8, 0, 7, 0)], Block::Air);
}

#[test]
fn water_fills_up_to_sea_level_and_beaches_are_sand() {
    let cfg = TerrainConfig::standard();
    let s = samples(8, 18);
    let blocks = generate_terrain_data(&cfg, ChunkPos { x: 0, y: 2, z: 0 }, 8, &s);
    // world y = 16 + local y
    assert_eq!(blocks[index(8, 3, 2, 3)], Block::Solid(SAND));
    assert_eq!(blocks[index(8, 3, 3, 3)], Block::Solid(WATER));
    assert_eq!(blocks[index(8, 3, 4, 3)], Block::Solid(WATER));
    assert_eq!(blocks[index(8, 3, 5, 3)], Block::Air);
}

#[test]
fn bedrock_floor_and_noisy_band() {
    let cfg = TerrainConfig::standard();
    let mut s = samples(4, 40);
    s.bedrock[index(4, 0, 1, 0)] = true;
    let blocks = generate_terrain_data(&cfg, ChunkPos { x: 0, y: 0, z: 0 }, 4, &s);
    assert_eq!(blocks[index(4, 2, 0, 2)], Block::Solid(BEDROCK));
    assert_eq!(blocks[index(4, 0, 1, 0)], Block::Solid(BEDROCK));
    assert_eq!(blocks[index(4, 1, 1, 0)], Block::Solid(STONE));
    assert_eq!(blocks[index(4, 1, 3, 0)], Block::Solid(STONE));
}

#[test]
fn caves_carve_stone_but_not_water_or_bedrock() {
    let cfg = TerrainConfig::standard();
    let mut s = samples(8, 12);
    for c in s.cave.iter_mut() {
        *c = true;
    }
    let blocks = generate_terrain_data(&cfg, ChunkPos { x: 0, y: 0, z: 0 }, 8, &s);
    assert_eq!(blocks[index(8, 0, 0, 0)], Block::Solid(BEDROCK));
    assert_eq!(blocks[index(8, 0, 1, 0)], Block::Solid(STONE));
    assert_eq!(blocks[index(8, 0, 2, 0)], Block::Air);
    assert_eq!(blocks[index(8, 0, 5, 0)], Block::Air);
    let upper = generate_terrain_data(&cfg, ChunkPos { x: 0, y: 2, z: 0 }, 8, &s);
    assert_eq!(upper[index(8, 0, 1, 0)], Block::Solid(WATER));
}

#[test]
fn stacked_chunks_sample_the_same_columns() {
    assert_eq!(world_column(ChunkPos { x: 2, y: 0, z: -1 }, 16, 3, 4), world_column(ChunkPos { x: 2, y: 5, z: -1 }, 16, 3, 4));
    assert_eq!(world_column(ChunkPos { x: 2, y: 0, z: -1 }, 16, 3, 4), (35, -12));
}

#[test]
fn neighbouring_chunks_meet_at_adjacent_columns() {
    let last = world_column(ChunkPos { x: -1, y: 0, z: 0 }, 16, 15, 0);
    let first = world_column(ChunkPos { x: 0, y: 0, z: 0 }, 16, 0, 0);
    assert_eq!(last.0 + 1, first.0);
    assert_eq!(last.1, first.1);
}

#[test]
fn terrain_is_seamless_across_stacked_chunks() {
    let cfg = TerrainConfig::standard();
    let s = samples(4, 5);
    let lower = generate_terrain_data(&cfg, ChunkPos { x: 0, y: 1, z: 0 }, 4, &s);
    let upper = generate_terrain_data(&cfg, ChunkPos { x: 0, y: 2, z: 0 }, 4, &s);
    // surface at world y 5: local y 1 of the lower chunk; all water above it up to sea level
    assert_eq!(lower[index(4, 1, 1, 1)], Block::Solid(SAND));
    assert_eq!(lower[index(4, 1, 3, 1)], Block::Solid(WATER));
    assert_eq!(upper[index(4, 1, 0, 1)], Block::Solid(WATER));
}
