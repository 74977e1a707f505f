use rsmc::common::{div, rem, MinIndex, TripleFloor, Vec3, UNIT};

#[test]
fn floor_division_rounds_down() {
    assert_eq!(div(17, 16), 1);
    assert_eq!(div(-1, 16), -1);
    assert_eq!(div(-16, 16), -1);
    assert_eq!(div(-17, 16), -2);
    assert_eq!(div(i64::MIN, 16), i64::MIN / 16);
}

#[test]
fn floor_modulo_is_never_negative() {
    assert_eq!(rem(17, 16), 1);
    assert_eq!(rem(-1, 16), 15);
    assert_eq!(rem(-16, 16), 0);
    assert_eq!(rem(-17, 16), 15);
    assert_eq!(rem(i64::MIN, 10), 2);
}

#[test]
fn triple_floor_uses_floor_not_truncation() {
    let p = Vec3::new(-UNIT * 3 / 10, UNIT / 2, 2 * UNIT);
    assert_eq!(p.floor(), (-1, 0, 2));
    let q = Vec3::new(-UNIT, -UNIT - 1, 0);
    assert_eq!(q.floor(), (-1, -2, 0));
}

#[test]
fn min_index_picks_first_smallest() {
    let v: Vec<i64> = vec![3, 1, 2, 1];
    assert_eq!(v[..].min_index(), 1);
    let w: Vec<i64> = vec![5];
    assert_eq!(w[..].min_index(), 0);
    let z: Vec<i64> = vec![4, 4, -2];
    assert_eq!(z[..].min_index(), 2);
}
