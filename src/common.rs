use vstd::prelude::*;

verus! {

/// Number of fixed-point units in one block (or one second): continuous
/// quantities are counted in millionths.
pub const UNIT: i64 = 1_000_000;

/// Side length of a chunk, in blocks.
pub const CHUNK_SIZE: i64 = 16;

/// A fixed-point triple: a position, a direction, a texture coordinate or a
/// normal, each component counted in `UNIT`s.
#[derive(Clone, Copy, Debug, PartialEq, Eq, Structural)]
pub struct Vec3 {
    pub x: i64,
    pub y: i64,
    pub z: i64,
}

impl Vec3 {
    pub fn new(x: i64, y: i64, z: i64) -> (r: Vec3)
        ensures
            r == (Vec3 { x, y, z }),
    {
        Vec3 { x, y, z }
    }
}

/// Floor division: the largest integer `q` with `q * d <= a`.
pub open spec fn floor_div(a: int, d: int) -> int {
    a / d
}

/// Remainder of floor division: always in `[0, d)` for positive `d`.
pub open spec fn floor_mod(a: int, d: int) -> int {
    a % d
}

/// Floor division of `a` by a positive `b` (rounds toward negative infinity).
pub fn div(a: i64, b: i64) -> (q: i64)
    requires
        b > 0,
    ensures
        q == floor_div(a as int, b as int),
{
    if a >= 0 {
        a / b
    } else {
        let m: i64 = -(a + 1);
        let q: i64 = m / b;
        proof {
            lemma_floor_div_negative(a as int, b as int, q as int);
        }
        -q - 1
    }
}

/// Remainder of floor division of `a` by a positive `b`, in `[0, b)`.
pub fn rem(a: i64, b: i64) -> (r: i64)
    requires
        b > 0,
    ensures
        r == floor_mod(a as int, b as int),
        0 <= r < b,
{
    if a >= 0 {
        a % b
    } else {
        let m: i64 = -(a + 1);
        let r: i64 = m % b;
        proof {
            lemma_floor_mod_negative(a as int, b as int, r as int);
        }
        b - 1 - r
    }
}

proof fn lemma_floor_div_negative(a: int, b: int, q: int)
    requires
        b > 0,
        a < 0,
        q == (-(a + 1)) / b,
    ensures
        -q - 1 == a / b,
{
    let m = -(a + 1);
    vstd::arithmetic::div_mod::lemma_fundamental_div_mod(m, b);
    vstd::arithmetic::div_mod::lemma_mod_bound(m, b);
    let r = m % b;
    // a = -m - 1 = (-q - 1) * b + (b - 1 - r), with 0 <= b - 1 - r < b
    assert(a == (-q - 1) * b + (b - 1 - r)) by (nonlinear_arith)
        requires m == b * q + r, a == -m - 1;
    vstd::arithmetic::div_mod::lemma_fundamental_div_mod_converse(a, b, -q - 1, b - 1 - r);
}

proof fn lemma_floor_mod_negative(a: int, b: int, r: int)
    requires
        b > 0,
        a < 0,
        r == (-(a + 1)) % b,
    ensures
        b - 1 - r == a % b,
        0 <= b - 1 - r < b,
{
    let m = -(a + 1);
    vstd::arithmetic::div_mod::lemma_fundamental_div_mod(m, b);
    vstd::arithmetic::div_mod::lemma_mod_bound(m, b);
    let q = m / b;
    assert(a == (-q - 1) * b + (b - 1 - r)) by (nonlinear_arith)
        requires m == b * q + r, a == -m - 1;
    vstd::arithmetic::div_mod::lemma_fundamental_div_mod_converse(a, b, -q - 1, b - 1 - r);
}

/// Floors a triple of fixed-point coordinates to the integer cell holding it.
pub trait TripleFloor<Out> {
    fn floor(&self) -> (Out, Out, Out);
}

pub open spec fn floor_cell(p: Vec3) -> (i64, i64, i64) {
    (
        floor_div(p.x as int, UNIT as int) as i64,
        floor_div(p.y as int, UNIT as int) as i64,
        floor_div(p.z as int, UNIT as int) as i64,
    )
}

/// A cell far enough from the ends of `i64` for a ray to step through it.
pub open spec fn cell_in_range(c: (int, int, int)) -> bool {
    let lim = i64::MAX / UNIT + 1;
    -lim <= c.0 <= lim && -lim <= c.1 <= lim && -lim <= c.2 <= lim
}

pub proof fn lemma_floor_cell_bounds(p: Vec3)
    ensures
        cell_in_range((floor_cell(p).0 as int, floor_cell(p).1 as int, floor_cell(p).2 as int)),
        floor_cell(p).0 as int == floor_div(p.x as int, UNIT as int),
        floor_cell(p).1 as int == floor_div(p.y as int, UNIT as int),
        floor_cell(p).2 as int == floor_div(p.z as int, UNIT as int),
{
    lemma_floor_div_bounds(p.x as int);
    lemma_floor_div_bounds(p.y as int);
    lemma_floor_div_bounds(p.z as int);
}

pub proof fn lemma_floor_div_bounds(a: int)
    requires
        i64::MIN <= a <= i64::MAX,
    ensures
        -(i64::MAX / UNIT + 1) <= a / (UNIT as int) <= i64::MAX / UNIT,
{
    vstd::arithmetic::div_mod::lemma_div_is_ordered(a, i64::MAX as int, UNIT as int);
    vstd::arithmetic::div_mod::lemma_div_is_ordered(i64::MIN as int, a, UNIT as int);
}

impl TripleFloor<i64> for Vec3 {
    fn floor(&self) -> (r: (i64, i64, i64))
        ensures
            r == floor_cell(*self),
    {
        (div(self.x, UNIT), div(self.y, UNIT), div(self.z, UNIT))
    }
}

/// Index of the first smallest entry of a non-empty sequence.
pub trait MinIndex {
    spec fn entry_count(&self) -> nat;

    fn min_index(&self) -> (r: usize)
        requires
            self.entry_count() > 0,
        ensures
            r < self.entry_count(),
    ;
}

impl MinIndex for [i64] {
    open spec fn entry_count(&self) -> nat {
        self@.len()
    }

    fn min_index(&self) -> (r: usize)
        ensures
            forall|j: int| 0 <= j < self@.len() ==> self@[r as int] <= self@[j],
            forall|j: int| 0 <= j < r ==> self@[j] > self@[r as int],
    {
        let mut best: usize = 0;
        let mut i: usize = 1;
        while i < self.len()
            invariant
                self@.len() > 0,
                1 <= i <= self@.len(),
                best < i,
                forall|j: int| 0 <= j < i ==> self@[best as int] <= self@[j],
                forall|j: int| 0 <= j < best ==> self@[j] > self@[best as int],
            decreases self@.len() - i,
        {
            if self[i] < self[best] {
                best = i;
            }
            i += 1;
        }
        best
    }
}

} // verus!
