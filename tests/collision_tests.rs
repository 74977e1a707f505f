use rsmc::chunk::Block;
use rsmc::collision::{is_grounded, resolve_axis, resolve_move, vertical_velocity, Axis, JUMP_SPEED, SKIN};
use rsmc::common::{Vec3, UNIT};
use rsmc::noise::Noise2DContext;
use rsmc::world::World;

fn flat_world() -> World {
    World::new(&Noise2DContext::from_tables(vec![(UNIT, 0); 256], (0..256).collect()).unwrap())
}

const HALF: i64 = UNIT / 2;

fn standing() -> Vec3 {
    Vec3::new(8 * UNIT + HALF, -15 * UNIT, 8 * UNIT + HALF)
}

#[test]
fn falling_stops_on_the_floor() {
    let w = flat_world();
    let p = resolve_move(&w, &standing(), &Vec3::new(0, -HALF, 0));
    assert_eq!(p, standing());
    let high = Vec3::new(8 * UNIT + HALF, -14 * UNIT - 700_000, 8 * UNIT + HALF);
    let p = resolve_move(&w, &high, &Vec3::new(0, -HALF, 0));
    assert_eq!(p.y, -15 * UNIT);
}

#[test]
fn free_movement_applies_in_full() {
    let w = flat_world();
    let p = resolve_move(&w, &standing(), &Vec3::new(300_000, 200_000, -400_000));
    assert_eq!(p, Vec3::new(8 * UNIT + 800_000, -15 * UNIT + 200_000, 8 * UNIT + 100_000));
}

#[test]
fn wall_stops_short_in_positive_direction() {
    let mut w = flat_world();
    w.replace_block((9, -15, 8), Block::Stone);
    assert_eq!(resolve_axis(&w, &standing(), Axis::X, 700_000), HALF - SKIN);
    let p = resolve_move(&w, &standing(), &Vec3::new(700_000, 0, 0));
    assert_eq!(p.x, 9 * UNIT - SKIN);
    assert_eq!(w.block_at_vec(&p), Some(Block::Air));
}

#[test]
fn wall_stops_at_edge_in_negative_direction() {
    let mut w = flat_world();
    w.replace_block((7, -15, 8), Block::Stone);
    let p = resolve_move(&w, &standing(), &Vec3::new(-700_000, 0, 0));
    assert_eq!(p.x, 8 * UNIT);
    assert_eq!(w.block_at_vec(&p), Some(Block::Air));
}

#[test]
fn corner_slides_along_the_stronger_axis() {
    let mut w = flat_world();
    w.replace_block((9, -15, 9), Block::Stone);
    let p = resolve_move(&w, &standing(), &Vec3::new(700_000, 0, 600_000));
    assert_eq!(p, Vec3::new(9 * UNIT + 200_000, -15 * UNIT, 9 * UNIT - SKIN));
    let p = resolve_move(&w, &standing(), &Vec3::new(600_000, 0, 700_000));
    assert_eq!(p, Vec3::new(9 * UNIT - SKIN, -15 * UNIT, 9 * UNIT + 200_000));
}

#[test]
fn unloaded_cells_are_passable() {
    let w = flat_world();
    let p = Vec3::new(31 * UNIT + HALF, -15 * UNIT, 8 * UNIT + HALF);
    let q = resolve_move(&w, &p, &Vec3::new(800_000, 0, 0));
    assert_eq!(q.x, 32 * UNIT + 300_000);
    assert_eq!(w.block_at_vec(&q), None);
}

#[test]
fn never_moved_into_solid() {
    let mut w = flat_world();
    for cc in [(9, -15, 8), (8, -14, 8), (7, -15, 9), (8, -15, 7)] {
        w.replace_block(cc, Block::Stone);
    }
    let deltas = [-900_000, -500_000, -1, 0, 1, 400_000, 999_999];
    for &dx in &deltas {
        for &dy in &deltas {
            for &dz in &deltas {
                let p = resolve_move(&w, &standing(), &Vec3::new(dx, dy, dz));
                let b = w.block_at_vec(&p);
                assert!(b.map_or(true, |b| !b.blocks()), "moved into {:?} by {:?}", b, (dx, dy, dz));
            }
        }
    }
}

#[test]
fn grounded_only_above_a_block() {
    let w = flat_world();
    assert!(is_grounded(&w, &standing()));
    let floating = Vec3::new(8 * UNIT + HALF, -14 * UNIT, 8 * UNIT + HALF);
    assert!(!is_grounded(&w, &floating));
    let outside = Vec3::new(100 * UNIT, 0, 0);
    assert!(is_grounded(&w, &outside));
}

#[test]
fn vertical_velocity_rules() {
    assert_eq!(vertical_velocity(0, UNIT / 10, false, false), -3 * UNIT);
    assert_eq!(vertical_velocity(-5 * UNIT, UNIT / 10, true, false), 0);
    assert_eq!(vertical_velocity(-5 * UNIT, UNIT / 10, true, true), JUMP_SPEED);
    assert_eq!(vertical_velocity(2 * UNIT, UNIT / 10, false, true), -UNIT);
}
