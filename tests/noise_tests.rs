use rsmc::common::UNIT;
use rand::SeedableRng;
use rsmc::noise::Noise2DContext;

fn ring_gradients() -> Vec<(i64, i64)> {
    (0..256)
        .map(|i| {
            let a = i as f64 * std::f64::consts::TAU / 256.0;
            ((a.cos() * UNIT as f64) as i64, (a.sin() * UNIT as f64) as i64)
        })
        .collect()
}

#[test]
fn seeded_tables_shuffle_the_permutation() {
    let mut rng = rand::rngs::StdRng::seed_from_u64(7);
    let n = Noise2DContext::new(ring_gradients(), &mut rng).unwrap();
    let plain = Noise2DContext::from_tables(ring_gradients(), (0..256).collect()).unwrap();
    let picked: Vec<(i64, i64)> = (0..256).map(|x| n.get_gradient(x, 0)).collect();
    let unshuffled: Vec<(i64, i64)> = (0..256).map(|x| plain.get_gradient(x, 0)).collect();
    assert_ne!(picked, unshuffled);
    // a permutation: every gradient is reached exactly once along a row
    let mut sorted = picked.clone();
    sorted.sort();
    sorted.dedup();
    assert_eq!(sorted.len(), 256);
    // the same seed gives the same field
    let mut rng2 = rand::rngs::StdRng::seed_from_u64(7);
    let m = Noise2DContext::new(ring_gradients(), &mut rng2).unwrap();
    assert_eq!(n.get(1_234_567, -7_654_321), m.get(1_234_567, -7_654_321));
    let mut rng3 = rand::rngs::StdRng::seed_from_u64(7);
    assert!(Noise2DContext::new(vec![(0, 0); 10], &mut rng3).is_none());
}

fn ring_noise() -> Noise2DContext {
    let perm: Vec<usize> = (0..256).map(|i| (i * 37 + 11) % 256).collect();
    Noise2DContext::from_tables(ring_gradients(), perm).unwrap()
}

#[test]
fn tables_are_checked() {
    assert!(Noise2DContext::from_tables(vec![(UNIT, 0); 255], (0..256).collect()).is_none());
    assert!(Noise2DContext::from_tables(vec![(UNIT, 0); 256], (0..255).collect()).is_none());
    assert!(Noise2DContext::from_tables(vec![(UNIT + 1, 0); 256], (0..256).collect()).is_none());
    let mut perm: Vec<usize> = (0..256).collect();
    perm[7] = 256;
    assert!(Noise2DContext::from_tables(vec![(UNIT, 0); 256], perm).is_none());
    // gradients must be unit vectors, up to rounding
    assert!(Noise2DContext::from_tables(vec![(0, -UNIT); 256], (0..256).collect()).is_some());
    assert!(Noise2DContext::from_tables(vec![(707_107, 707_106); 256], (0..256).collect()).is_some());
    assert!(Noise2DContext::from_tables(vec![(UNIT, -UNIT); 256], (0..256).collect()).is_none());
    assert!(Noise2DContext::from_tables(vec![(0, 0); 256], (0..256).collect()).is_none());
    assert!(Noise2DContext::from_tables(vec![(UNIT / 2, 0); 256], (0..256).collect()).is_none());
    assert!(Noise2DContext::from_tables(vec![(UNIT - 3, 0); 256], (0..256).collect()).is_none());
    assert!(Noise2DContext::from_tables(vec![(UNIT - 2, 0); 256], (0..256).collect()).is_some());
}

#[test]
fn gradient_lookup_wraps_every_256_cells() {
    let n = ring_noise();
    assert_eq!(n.get_gradient(3, 5), n.get_gradient(3 + 256, 5 - 512));
    assert_eq!(n.get_gradient(-1, 0), n.get_gradient(255, 0));
    // permutation (37 i + 11) mod 256: entries 11 and 48 sum to 59
    let expected_angle = 59.0 * std::f64::consts::TAU / 256.0;
    assert_eq!(n.get_gradient(0, 1).0, (expected_angle.cos() * UNIT as f64) as i64);
}

#[test]
fn corner_gradients_in_order() {
    let n = ring_noise();
    let g = n.get_gradients(-4, 9);
    assert_eq!(g, [n.get_gradient(-4, 9), n.get_gradient(-3, 9), n.get_gradient(-4, 10), n.get_gradient(-3, 10)]);
}

#[test]
fn noise_exact_value() {
    let n = Noise2DContext::from_tables(vec![(UNIT, 0); 256], (0..256).collect()).unwrap();
    assert_eq!(n.get(UNIT / 4, 0), 93_750);
    assert_eq!(n.get(UNIT / 2, 0), 0);
}

#[test]
fn noise_vanishes_on_lattice_points() {
    let n = ring_noise();
    for (x, y) in [(0, 0), (3, -7), (-100, 42), (255, 256)] {
        assert_eq!(n.get(x * UNIT, y * UNIT), 0);
    }
}

#[test]
fn noise_is_deterministic() {
    let a = ring_noise();
    let b = ring_noise();
    for i in -50..50i64 {
        let (x, y) = (i * 123_457, i * -98_765 + 17);
        assert_eq!(a.get(x, y), a.get(x, y));
        assert_eq!(a.get(x, y), b.get(x, y));
    }
}

#[test]
fn noise_is_continuous() {
    let n = ring_noise();
    let step = 1_000; // a thousandth of a unit
    let mut x = -3 * UNIT;
    while x < 3 * UNIT {
        let y = x / 3 + 250_000;
        let v = n.get(x, y);
        assert!(v.abs() <= 2 * UNIT);
        assert!((n.get(x + step, y) - v).abs() <= 10 * step, "jump in x at {}", x);
        assert!((n.get(x, y + step) - v).abs() <= 10 * step, "jump in y at {}", x);
        x += 7_919;
    }
}

#[test]
fn noise_has_no_seam_at_cell_boundaries() {
    let n = ring_noise();
    for k in -5..5i64 {
        for j in 0..20i64 {
            let y = j * 51_234 - 400_000;
            let across_x = n.get(k * UNIT, y) - n.get(k * UNIT - 1, y);
            assert!(across_x.abs() <= 81, "seam along x at cell {}", k);
            let across_y = n.get(y, k * UNIT) - n.get(y, k * UNIT - 1);
            assert!(across_y.abs() <= 33, "seam along y at cell {}", k);
        }
    }
}
