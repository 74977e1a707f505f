use rsmc::chunk::{make_cube, make_cube_normal, make_cube_texcoord, Block, Chunk};
use rsmc::common::{Vec3, UNIT};
use std::cell::{Cell, RefCell};

#[test]
fn block_properties() {
    assert!(!Block::Air.blocks());
    assert!(Block::Grass.blocks());
    assert!(Block::Stone.blocks());
    assert!(Block::Dirt.blocks());
    assert_eq!(Block::Grass.top_texture_id(), 0);
    assert_eq!(Block::Grass.side_texture_id(), 3);
    assert_eq!(Block::Stone.top_texture_id(), 1);
    assert_eq!(Block::Dirt.side_texture_id(), 2);
    assert_eq!(Block::Stone.breaking_time(), UNIT / 2);
}

#[test]
fn new_chunk_is_stone_without_cache() {
    let c = Chunk::new();
    assert_eq!(c.block_at((0, 0, 0)), Some(Block::Stone));
    assert_eq!(c.block_at((15, 15, 15)), Some(Block::Stone));
    assert!(c.buffer_cache().is_none());
}

#[test]
fn out_of_range_local_lookup_is_absent() {
    let c = Chunk::new();
    for cc in [(16, 0, 0), (0, 16, 0), (0, 0, 16), (-1, 0, 0), (0, -1, 0), (0, 0, -1), (100, -100, 3)] {
        assert_eq!(c.block_at(cc), None);
    }
    let mut c = Chunk::new();
    assert!(c.block_at_mut((0, 0, 16)).is_none());
    assert!(c.block_at_mut((-1, 3, 3)).is_none());
}

#[test]
fn block_at_vec_floors_position() {
    let mut c = Chunk::new();
    *c.block_at_mut((3, 0, 15)).unwrap() = Block::Grass;
    assert_eq!(c.block_at_vec(&Vec3::new(3 * UNIT + 999_999, 0, 15 * UNIT + 1)), Some(Block::Grass));
    assert_eq!(c.block_at_vec(&Vec3::new(-1, 0, 0)), None);
    assert_eq!(c.block_at_vec(&Vec3::new(0, 16 * UNIT, 0)), None);
}

#[test]
fn block_at_mut_writes_one_cell() {
    let mut c = Chunk::new();
    *c.block_at_mut((1, 2, 3)).unwrap() = Block::Air;
    assert_eq!(c.block_at((1, 2, 3)), Some(Block::Air));
    assert_eq!(c.block_at((3, 2, 1)), Some(Block::Stone));
}

#[test]
fn cube_corners() {
    let v = make_cube(10, 20, 30, 2);
    assert_eq!(v.len(), 24);
    assert_eq!(v[0], Vec3::new(8, 22, 28));
    assert_eq!(v[2], Vec3::new(12, 22, 32));
    assert_eq!(v[4], Vec3::new(8, 18, 28));
    assert_eq!(v[23], Vec3::new(12, 22, 28));
    let t = make_cube_texcoord(2, 5);
    assert_eq!(t.len(), 24);
    assert_eq!(t[1], Vec3::new(0, UNIT, 2 * UNIT));
    assert_eq!(t[4], Vec3::new(0, 0, 5 * UNIT));
    let n = make_cube_normal();
    assert_eq!(n.len(), 24);
    assert_eq!(n[0], Vec3::new(0, UNIT, 0));
    assert_eq!(n[8], Vec3::new(-UNIT, 0, 0));
    assert_eq!(n[23], Vec3::new(0, 0, -UNIT));
}

fn single_block_chunk(b: Block) -> Chunk {
    let mut c = Chunk::new();
    c.each_block_mut(|_pos: (usize, usize, usize), _b: Block| (Block::Air, true));
    *c.block_at_mut((2, 3, 4)).unwrap() = b;
    c
}

#[test]
fn geometry_of_one_block() {
    let c = single_block_chunk(Block::Grass);
    let (v, t, n) = c.generate_buffer_data();
    assert_eq!(v.len(), 24);
    assert_eq!(t.len(), 24);
    assert_eq!(n.len(), 24);
    // top face, first corner: centre (2.5, 3.5, 4.5) minus/plus half a block
    assert_eq!(v[0], Vec3::new(2 * UNIT, 4 * UNIT, 4 * UNIT));
    assert_eq!(t[0], Vec3::new(0, 0, 0));
    assert_eq!(t[4], Vec3::new(0, 0, 3 * UNIT));
}

#[test]
fn air_chunk_has_no_geometry() {
    let c = single_block_chunk(Block::Air);
    let (v, t, n) = c.generate_buffer_data();
    assert!(v.is_empty() && t.is_empty() && n.is_empty());
}

#[test]
fn full_chunk_emits_every_cube() {
    let mut c = Chunk::new();
    c.update_buffer_cache();
    assert_eq!(c.buffer_cache().unwrap().vertex_no, 4096 * 24);
}

#[test]
fn cache_is_refreshed_only_on_request() {
    let mut c = single_block_chunk(Block::Stone);
    c.update_buffer_cache();
    assert_eq!(c.buffer_cache().unwrap().vertex_no, 24);
    *c.block_at_mut((0, 0, 0)).unwrap() = Block::Dirt;
    assert_eq!(c.buffer_cache().unwrap().vertex_no, 24);
    c.update_buffer_cache();
    let cache = c.buffer_cache().unwrap();
    assert_eq!(cache.vertex_no, 48);
    assert_eq!(cache.position.len(), 48);
    // the block at (0, 0, 0) is visited first
    assert_eq!(cache.position[0], Vec3::new(0, UNIT, 0));
}

#[test]
fn each_block_visits_y_then_x_then_z() {
    let c = Chunk::new();
    let seen = RefCell::new(Vec::new());
    c.each_block(|pos: (usize, usize, usize), _b: Block| {
        seen.borrow_mut().push(pos);
        true
    });
    let seen = seen.into_inner();
    assert_eq!(seen.len(), 4096);
    assert_eq!(seen[0], (0, 0, 0));
    assert_eq!(seen[1], (0, 0, 1));
    assert_eq!(seen[16], (1, 0, 0));
    assert_eq!(seen[256], (0, 1, 0));
    assert_eq!(seen[4095], (15, 15, 15));
}

#[test]
fn each_block_stops_when_asked() {
    let c = Chunk::new();
    let count = Cell::new(0usize);
    c.each_block(|_pos: (usize, usize, usize), _b: Block| {
        count.set(count.get() + 1);
        count.get() < 10
    });
    assert_eq!(count.get(), 10);
}

#[test]
fn each_block_mut_stops_when_asked() {
    let mut c = Chunk::new();
    c.each_block_mut(|pos: (usize, usize, usize), _b: Block| (Block::Air, pos != (1, 0, 0)));
    assert_eq!(c.block_at((0, 0, 15)), Some(Block::Air));
    assert_eq!(c.block_at((1, 0, 0)), Some(Block::Air));
    assert_eq!(c.block_at((1, 0, 1)), Some(Block::Stone));
    assert_eq!(c.block_at((0, 1, 0)), Some(Block::Stone));
}
