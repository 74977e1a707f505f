use rsmc::chunk::Block;
use rsmc::common::{Vec3, UNIT};
use rsmc::noise::Noise2DContext;
use rsmc::world::World;

fn flat_world() -> World {
    World::new(&Noise2DContext::from_tables(vec![(UNIT, 0); 256], (0..256).collect()).unwrap())
}

const HALF: i64 = UNIT / 2;

#[test]
fn ray_along_x_visits_consecutive_cells() {
    let w = flat_world();
    let cells = w.visit_ray(&Vec3::new(HALF, HALF, HALF), &Vec3::new(UNIT, 0, 0));
    assert_eq!(cells.len(), 64);
    for (k, c) in cells.iter().enumerate() {
        assert_eq!(*c, (k as i64, 0, 0));
    }
}

#[test]
fn ray_is_deterministic_and_starts_at_origin_cell() {
    let w = flat_world();
    let o = Vec3::new(-1_234_567, 7_654_321, -42);
    let d = Vec3::new(300_000, -200_000, 900_000);
    let a = w.visit_ray(&o, &d);
    let b = w.visit_ray(&o, &d);
    assert_eq!(a, b);
    assert_eq!(a[0], (-2, 7, -1));
    for k in 1..a.len() {
        let (p, q) = (a[k - 1], a[k]);
        let moved = (p.0 - q.0).abs() + (p.1 - q.1).abs() + (p.2 - q.2).abs();
        assert_eq!(moved, 1);
    }
}

#[test]
fn ray_ties_go_to_x_first() {
    let w = flat_world();
    let cells = w.visit_ray(&Vec3::new(HALF, HALF, HALF), &Vec3::new(UNIT, UNIT, 0));
    assert_eq!(&cells[..5], &[(0, 0, 0), (1, 0, 0), (1, 1, 0), (2, 1, 0), (2, 2, 0)]);
    let cells = w.visit_ray(&Vec3::new(HALF, HALF, HALF), &Vec3::new(0, UNIT, UNIT));
    assert_eq!(&cells[..3], &[(0, 0, 0), (0, 1, 0), (0, 1, 1)]);
}

#[test]
fn ray_in_negative_direction() {
    let w = flat_world();
    let cells = w.visit_ray(&Vec3::new(HALF, HALF, HALF), &Vec3::new(-UNIT, 0, 0));
    assert_eq!(&cells[..3], &[(0, 0, 0), (-1, 0, 0), (-2, 0, 0)]);
    // starting on a boundary and moving back crosses it at once
    let cells = w.visit_ray(&Vec3::new(0, HALF, HALF), &Vec3::new(0, 0, -UNIT));
    assert_eq!(&cells[..3], &[(0, 0, 0), (0, 0, -1), (0, 0, -2)]);
}

#[test]
fn cast_ray_finds_floor() {
    let w = flat_world();
    let down = Vec3::new(0, -UNIT, 0);
    let o = Vec3::new(8 * UNIT + HALF, HALF, 8 * UNIT + HALF);
    assert_eq!(w.cast_ray(&o, &down), Some(((8, -16, 8), Block::Dirt)));
    assert_eq!(w.cast_ray_previous(&o, &down), Some(((8, -15, 8), Block::Air)));
    let up = Vec3::new(0, UNIT, 0);
    assert_eq!(w.cast_ray(&o, &up), None);
    assert_eq!(w.cast_ray_previous(&o, &up), None);
}

#[test]
fn cast_ray_respects_step_budget() {
    let w = flat_world();
    let down = Vec3::new(0, -UNIT, 0);
    // 63 steps above the floor: the floor is the last cell visited
    let o = Vec3::new(HALF, 47 * UNIT + HALF, HALF);
    assert_eq!(w.cast_ray(&o, &down), Some(((0, -16, 0), Block::Dirt)));
    // 64 steps above: out of reach
    let o = Vec3::new(HALF, 48 * UNIT + HALF, HALF);
    assert_eq!(w.cast_ray(&o, &down), None);
}

#[test]
fn cast_ray_previous_from_outside_loaded_chunks() {
    let w = flat_world();
    let down = Vec3::new(0, -UNIT, 0);
    // starts in the unloaded chunk (0, 1, 0), crosses air, hits the floor
    let o = Vec3::new(8 * UNIT + HALF, 17 * UNIT + HALF, 8 * UNIT + HALF);
    assert_eq!(w.cast_ray(&o, &down), Some(((8, -16, 8), Block::Dirt)));
    assert_eq!(w.cast_ray_previous(&o, &down), None);
}

#[test]
fn cast_ray_previous_needs_air_before_hit() {
    let w = flat_world();
    let o = Vec3::new(HALF, -16 * UNIT + HALF, HALF);
    let down = Vec3::new(0, -UNIT, 0);
    assert_eq!(w.cast_ray(&o, &down), Some(((0, -16, 0), Block::Dirt)));
    assert_eq!(w.cast_ray_previous(&o, &down), None);
}

#[test]
fn cast_ray_after_breaking_a_block() {
    let mut w = flat_world();
    let o = Vec3::new(2 * UNIT + HALF, -14 * UNIT, 2 * UNIT + HALF);
    let d = Vec3::new(0, -UNIT, 0);
    let (cc, _) = w.cast_ray(&o, &d).unwrap();
    w.replace_block(cc, Block::Air);
    assert_eq!(w.cast_ray(&o, &d), None);
    w.replace_block((2, -14, 2), Block::Stone);
    assert_eq!(w.cast_ray(&o, &d), Some(((2, -14, 2), Block::Stone)));
}
