use rsmc::chunk::Block;
use rsmc::common::UNIT;
use rsmc::noise::Noise2DContext;
use rsmc::world::{new_empty_chunk, new_noise_chunk, new_stair_chunk, new_test_chunk, World};

fn flat_noise() -> Noise2DContext {
    Noise2DContext::from_tables(vec![(UNIT, 0); 256], (0..256).collect()).unwrap()
}

#[test]
fn initial_world_layout() {
    let w = World::new(&flat_noise());
    assert!(w.chunk_at((0, 0, 0)).is_some());
    for kx in -1..=1 {
        for kz in -1..=1 {
            assert!(w.chunk_at((kx, -1, kz)).is_some());
        }
    }
    assert!(w.chunk_at((0, 1, 0)).is_none());
    assert!(w.chunk_at((2, -1, 0)).is_none());
    let mut count = std::cell::Cell::new(0);
    w.each_chunk(|_k: &(i64, i64, i64), c: &rsmc::chunk::Chunk| {
        assert!(c.buffer_cache().is_some());
        count.set(count.get() + 1);
        true
    });
    assert_eq!(*count.get_mut(), 10);
}

#[test]
fn flat_terrain_has_dirt_floor() {
    let w = World::new(&flat_noise());
    assert_eq!(w.block_at((5, -16, 5)), Some(Block::Dirt));
    assert_eq!(w.block_at((5, -15, 5)), Some(Block::Air));
    assert_eq!(w.block_at((5, 0, 5)), Some(Block::Air));
    assert_eq!(w.block_at((5, 16, 5)), None);
    assert_eq!(w.block_at((40, -16, 5)), None);
}

#[test]
fn negative_coordinates_use_floor_division() {
    let mut w = World::new(&flat_noise());
    // (-1, -1, -1) is local (15, 15, 15) of chunk (-1, -1, -1)
    w.replace_block((-1, -1, -1), Block::Stone);
    assert_eq!(w.block_at((-1, -1, -1)), Some(Block::Stone));
    assert_eq!(w.chunk_at((-1, -1, -1)).unwrap().block_at((15, 15, 15)), Some(Block::Stone));
    // (-16, -16, -16) is local (0, 0, 0) of chunk (-1, -1, -1): the dirt floor
    assert_eq!(w.block_at((-16, -16, -16)), Some(Block::Dirt));
    // (-17, ..) lies in chunk (-2, ..), which is not loaded
    assert_eq!(w.block_at((-17, -16, 0)), None);
    // (-1, 0, 0) maps to chunk (-1, 0, 0), not loaded; not to chunk (0, 0, 0)
    assert_eq!(w.block_at((-1, 0, 0)), None);
    w.replace_block((-1, -16, 0), Block::Grass);
    assert_eq!(w.chunk_at((-1, -1, 0)).unwrap().block_at((15, 0, 0)), Some(Block::Grass));
}

#[test]
fn replace_block_round_trip_and_vertex_count() {
    let mut w = World::new(&flat_noise());
    let before = w.chunk_at((0, 0, 0)).unwrap().buffer_cache().unwrap().vertex_no;
    assert_eq!(before, 0);
    w.replace_block((3, 4, 5), Block::Stone);
    assert_eq!(w.block_at((3, 4, 5)), Some(Block::Stone));
    assert_eq!(w.chunk_at((0, 0, 0)).unwrap().buffer_cache().unwrap().vertex_no, 24);
    w.replace_block((3, 4, 5), Block::Dirt);
    assert_eq!(w.chunk_at((0, 0, 0)).unwrap().buffer_cache().unwrap().vertex_no, 24);
    w.replace_block((3, 4, 5), Block::Air);
    assert_eq!(w.block_at((3, 4, 5)), Some(Block::Air));
    assert_eq!(w.chunk_at((0, 0, 0)).unwrap().buffer_cache().unwrap().vertex_no, 0);
    let floor = w.chunk_at((0, -1, 0)).unwrap().buffer_cache().unwrap().vertex_no;
    assert_eq!(floor, 256 * 24);
    w.replace_block((0, -16, 0), Block::Air);
    assert_eq!(w.chunk_at((0, -1, 0)).unwrap().buffer_cache().unwrap().vertex_no, 255 * 24);
}

#[test]
fn block_at_vec_floors_negative_positions() {
    let mut w = World::new(&flat_noise());
    w.replace_block((-1, -1, 0), Block::Stone);
    w.replace_block((0, -1, 0), Block::Dirt);
    let p = rsmc::common::Vec3::new(-300_000, -500_000, 500_000);
    assert_eq!(w.block_at_vec(&p), Some(Block::Stone));
    let q = rsmc::common::Vec3::new(300_000, -500_000, 500_000);
    assert_eq!(w.block_at_vec(&q), Some(Block::Dirt));
}

#[test]
fn generated_chunks() {
    let e = new_empty_chunk();
    assert_eq!(e.block_at((7, 7, 7)), Some(Block::Air));
    assert_eq!(e.buffer_cache().unwrap().vertex_no, 0);
    let t = new_test_chunk();
    assert_eq!(t.block_at((7, 0, 7)), Some(Block::Stone));
    assert_eq!(t.block_at((7, 1, 7)), Some(Block::Air));
    assert_eq!(t.buffer_cache().unwrap().vertex_no, 256 * 24);
    let s = new_stair_chunk();
    assert_eq!(s.block_at((0, 9, 3)), Some(Block::Stone));
    assert_eq!(s.block_at((4, 12, 3)), Some(Block::Stone));
    assert_eq!(s.block_at((4, 11, 3)), Some(Block::Air));
}

#[test]
fn terrain_follows_noise_height() {
    // every gradient (1, 0): along a row z = 0 the height is the noise of x
    let n = Noise2DContext::from_tables(vec![(rsmc::common::UNIT, 0); 256], (0..256).collect()).unwrap();
    let c = new_noise_chunk(&n, 0, 0);
    // x = 2 samples at 0.2: height ~0.134 of a unit, below a sixth of a layer
    assert_eq!(c.block_at((2, 0, 0)), Some(Block::Dirt));
    assert_eq!(c.block_at((2, 1, 0)), Some(Block::Air));
    let h = n.get(2 * 100_000, 0);
    assert!(h > 0 && 6 * h < rsmc::common::UNIT);
}
