use oxidize::engine::block::{Block, WATER};
use oxidize::engine::camera::CameraMove;
use oxidize::engine::input::KeyState;
use oxidize::world::block::{Block as ColumnBlock, BlockRegistry};

#[test]
fn block_classification() {
    assert!(Block::Air.is_air());
    assert!(!Block::Air.is_solid());
    assert!(Block::Solid(3).is_solid());
    assert_eq!(Block::Solid(WATER).block_id(), Some(WATER));
    assert_eq!(Block::Air.block_id(), None);
}

#[test]
fn key_edges_fire_once() {
    let mut k = KeyState::default();
    k.press();
    assert!(k.down && k.pressed);
    k.begin_frame();
    k.press();
    assert!(k.down && !k.pressed);
    k.release();
    assert!(!k.down && k.released);
    k.begin_frame();
    k.release();
    assert!(!k.released);
}

#[test]
fn camera_moves_compare() {
    assert_ne!(CameraMove::Forward, CameraMove::Backward);
}

#[test]
fn basic_registry_tiles() {
    let reg = BlockRegistry::basic();
    let grass = reg.get(ColumnBlock::Grass).unwrap();
    assert_eq!((grass.top, grass.side, grass.bottom), ((0, 0), (3, 0), (1, 0)));
    assert_eq!(reg.get(ColumnBlock::Stone).unwrap().side, (2, 0));
    assert!(reg.get(ColumnBlock::Air).is_none());
    assert!(ColumnBlock::Air.is_air());
    assert!(!ColumnBlock::Dirt.is_air());
}
