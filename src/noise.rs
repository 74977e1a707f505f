use vstd::prelude::*;
use crate::common::{floor_div, floor_mod, div, rem, UNIT};
use rand::rngs::StdRng;
use rand::seq::SliceRandom;

verus! {

#[verifier::external_type_specification]
#[verifier::external_body]
pub struct ExStdRng(StdRng);

/// Relies on rand's `SliceRandom::shuffle` for slices: a run of swaps of two
/// entries each, so the entries are kept and only their order changes.
#[verifier::external_body]
fn shuffle(v: &mut Vec<usize>, rng: &mut StdRng)
    ensures
        final(v)@.to_multiset() == old(v)@.to_multiset(),
{
    v.as_mut_slice().shuffle(rng);
}

/// The entries `0, 1, ..., 255` in order.
pub open spec fn identity_table() -> Seq<usize> {
    Seq::new(TABLE_SIZE as nat, |i: int| i as usize)
}

/// Number of entries in the gradient and permutation tables; the lattice
/// repeats with this period on each axis.
pub const TABLE_SIZE: usize = 256;

/// Gradient at lattice corner `(cx, cy)`: the permutation entries of both
/// coordinates, summed and reduced modulo the table size, select it.
pub open spec fn lattice_gradient(g: Seq<(i64, i64)>, p: Seq<usize>, cx: int, cy: int) -> (int, int) {
    let i = (p[floor_mod(cx, 256)] + p[floor_mod(cy, 256)]) % 256;
    (g[i].0 as int, g[i].1 as int)
}

/// Contribution of a corner: its gradient dotted with the offset `(ox, oy)`
/// from the corner to the sample point.
pub open spec fn corner_value(grad: (int, int), ox: int, oy: int) -> int {
    floor_div(grad.0 * ox + grad.1 * oy, UNIT as int)
}

/// The smoothstep weight `3t^2 - 2t^3` of a fraction `t` of a unit.
pub open spec fn smooth(t: int) -> int {
    let u = UNIT as int;
    floor_div(floor_div(t * t, u) * (3 * u - 2 * t), u)
}

/// Linear interpolation from `a` to `b` by the fraction `v` of a unit.
pub open spec fn lerp(a: int, b: int, v: int) -> int {
    a + floor_div((b - a) * v, UNIT as int)
}

/// Gradient noise at the fixed-point point `(x, y)`: the four corners of the
/// surrounding lattice cell contribute, interpolated with smoothstep weights
/// along x and then along y.
pub open spec fn noise_value(g: Seq<(i64, i64)>, p: Seq<usize>, x: int, y: int) -> int {
    let u = UNIT as int;
    let (cx, cy) = (floor_div(x, u), floor_div(y, u));
    let (fx, fy) = (floor_mod(x, u), floor_mod(y, u));
    let v0 = corner_value(lattice_gradient(g, p, cx, cy), fx, fy);
    let v1 = corner_value(lattice_gradient(g, p, cx + 1, cy), fx - u, fy);
    let v2 = corner_value(lattice_gradient(g, p, cx, cy + 1), fx, fy - u);
    let v3 = corner_value(lattice_gradient(g, p, cx + 1, cy + 1), fx - u, fy - u);
    let sx = smooth(fx);
    let sy = smooth(fy);
    lerp(lerp(v0, v1, sx), lerp(v2, v3, sx), sy)
}

/// How far, in fixed-point units, a gradient's length may stray from one
/// unit: room for rounding each component to a whole unit.
pub const GRADIENT_TOLERANCE: i64 = 2;

/// A unit gradient vector, up to rounding: components within one unit, and
/// length within `GRADIENT_TOLERANCE` of one unit.
pub open spec fn gradient_ok(v: (i64, i64)) -> bool {
    let lo = UNIT - GRADIENT_TOLERANCE;
    let hi = UNIT + GRADIENT_TOLERANCE;
    &&& -UNIT <= v.0 <= UNIT
    &&& -UNIT <= v.1 <= UNIT
    &&& lo * lo <= v.0 * v.0 + v.1 * v.1 <= hi * hi
}

/// A two-dimensional coherent noise field, fixed by its gradient and
/// permutation tables.
pub struct Noise2DContext {
    rgradients: Vec<(i64, i64)>,
    permutations: Vec<usize>,
}

impl Noise2DContext {
    pub closed spec fn gradients(&self) -> Seq<(i64, i64)> {
        self.rgradients@
    }

    pub closed spec fn permutation(&self) -> Seq<usize> {
        self.permutations@
    }

    pub open spec fn wf(&self) -> bool {
        &&& self.gradients().len() == TABLE_SIZE
        &&& self.permutation().len() == TABLE_SIZE
        &&& forall|i: int| 0 <= i < TABLE_SIZE ==> gradient_ok(#[trigger] self.gradients()[i])
        &&& forall|i: int| 0 <= i < TABLE_SIZE ==> #[trigger] self.permutation()[i] < TABLE_SIZE
    }

    /// A noise field over the given gradients, with a permutation table that
    /// is `0..256` shuffled by `rng`; `None` unless there are 256 gradients
    /// whose components all lie within one unit.
    pub fn new(rgradients: Vec<(i64, i64)>, rng: &mut StdRng) -> (r: Option<Noise2DContext>)
        ensures
            r is Some <==> {
                &&& rgradients@.len() == TABLE_SIZE
                &&& forall|i: int| 0 <= i < TABLE_SIZE ==> gradient_ok(#[trigger] rgradients@[i])
            },
            r matches Some(n) ==> {
                &&& n.wf()
                &&& n.gradients() == rgradients@
                &&& n.permutation().to_multiset() == identity_table().to_multiset()
            },
    {
        let mut permutations: Vec<usize> = Vec::new();
        let mut i: usize = 0;
        while i < TABLE_SIZE
            invariant
                i <= TABLE_SIZE,
                permutations@ == identity_table().take(i as int),
            decreases TABLE_SIZE - i,
        {
            permutations.push(i);
            i += 1;
            assert(permutations@ =~= identity_table().take(i as int));
        }
        assert(permutations@ =~= identity_table());
        shuffle(&mut permutations, rng);
        proof {
            broadcast use vstd::seq_lib::group_to_multiset_ensures;
            assert forall|j: int| 0 <= j < permutations@.len() implies #[trigger] permutations@[j] < TABLE_SIZE by {
                let e = permutations@[j];
                assert(permutations@.contains(e));
                assert(identity_table().to_multiset().count(e) > 0);
                assert(identity_table().contains(e));
            }
            assert(permutations@.to_multiset().len() == identity_table().to_multiset().len());
        }
        Self::from_tables(rgradients, permutations)
    }

    /// A noise field over the given tables; `None` unless both have 256
    /// entries, every gradient component lies within one unit and every
    /// permutation entry is below 256.
    pub fn from_tables(rgradients: Vec<(i64, i64)>, permutations: Vec<usize>) -> (r: Option<Noise2DContext>)
        ensures
            r is Some <==> {
                &&& rgradients@.len() == TABLE_SIZE
                &&& permutations@.len() == TABLE_SIZE
                &&& forall|i: int| 0 <= i < TABLE_SIZE ==> gradient_ok(#[trigger] rgradients@[i])
                &&& forall|i: int| 0 <= i < TABLE_SIZE ==> #[trigger] permutations@[i] < TABLE_SIZE
            },
            r matches Some(n) ==> n.wf() && n.gradients() == rgradients@ && n.permutation() == permutations@,
    {
        if rgradients.len() != TABLE_SIZE || permutations.len() != TABLE_SIZE {
            return None;
        }
        let mut i: usize = 0;
        while i < TABLE_SIZE
            invariant
                rgradients@.len() == TABLE_SIZE,
                permutations@.len() == TABLE_SIZE,
                i <= TABLE_SIZE,
                forall|j: int| 0 <= j < i ==> gradient_ok(#[trigger] rgradients@[j]),
                forall|j: int| 0 <= j < i ==> #[trigger] permutations@[j] < TABLE_SIZE,
            decreases TABLE_SIZE - i,
        {
            let (gx, gy) = rgradients[i];
            if gx < -UNIT || gx > UNIT || gy < -UNIT || gy > UNIT || permutations[i] >= TABLE_SIZE {
                return None;
            }
            assert(0 <= gx * gx <= UNIT * UNIT && 0 <= gy * gy <= UNIT * UNIT) by (nonlinear_arith)
                requires
                    -UNIT <= gx <= UNIT,
                    -UNIT <= gy <= UNIT,
            ;
            let norm = gx * gx + gy * gy;
            let lo = UNIT - GRADIENT_TOLERANCE;
            let hi = UNIT + GRADIENT_TOLERANCE;
            if norm < lo * lo || norm > hi * hi {
                return None;
            }
            i += 1;
        }
        Some(Noise2DContext { rgradients, permutations })
    }

    /// The gradient of lattice corner `(x, y)`.
    pub fn get_gradient(&self, x: i64, y: i64) -> (r: (i64, i64))
        requires
            self.wf(),
        ensures
            (r.0 as int, r.1 as int) == lattice_gradient(self.gradients(), self.permutation(), x as int, y as int),
            gradient_ok(r),
    {
        let idx = (self.permutations[rem(x, 256) as usize] + self.permutations[rem(y, 256) as usize]) % 256;
        self.rgradients[idx]
    }

    /// Gradients of the four corners of lattice cell `(x, y)`, in the order
    /// `(x, y)`, `(x + 1, y)`, `(x, y + 1)`, `(x + 1, y + 1)`.
    pub fn get_gradients(&self, x: i64, y: i64) -> (r: [(i64, i64); 4])
        requires
            self.wf(),
            x < i64::MAX,
            y < i64::MAX,
        ensures
            (r[0].0 as int, r[0].1 as int) == lattice_gradient(self.gradients(), self.permutation(), x as int, y as int),
            (r[1].0 as int, r[1].1 as int) == lattice_gradient(self.gradients(), self.permutation(), x + 1, y as int),
            (r[2].0 as int, r[2].1 as int) == lattice_gradient(self.gradients(), self.permutation(), x as int, y + 1),
            (r[3].0 as int, r[3].1 as int) == lattice_gradient(self.gradients(), self.permutation(), x + 1, y + 1),
            forall|i: int| 0 <= i < 4 ==> gradient_ok(#[trigger] r[i]),
    {
        let x1 = x + 1;
        let y1 = y + 1;
        [self.get_gradient(x, y), self.get_gradient(x1, y), self.get_gradient(x, y1), self.get_gradient(x1, y1)]
    }

    /// Noise at the fixed-point point `(x, y)`; always within two units of zero.
    pub fn get(&self, x: i64, y: i64) -> (r: i64)
        requires
            self.wf(),
        ensures
            r == noise_value(self.gradients(), self.permutation(), x as int, y as int),
            -2 * UNIT <= r <= 2 * UNIT,
    {
        let cx = div(x, UNIT);
        let cy = div(y, UNIT);
        let fx = rem(x, UNIT);
        let fy = rem(y, UNIT);
        proof {
            crate::common::lemma_floor_div_bounds(x as int);
            crate::common::lemma_floor_div_bounds(y as int);
        }
        let g = self.get_gradients(cx, cy);
        let v0 = corner_value_exec(g[0], fx, fy);
        let v1 = corner_value_exec(g[1], fx - UNIT, fy);
        let v2 = corner_value_exec(g[2], fx, fy - UNIT);
        let v3 = corner_value_exec(g[3], fx - UNIT, fy - UNIT);
        let sx = smooth_exec(fx);
        let sy = smooth_exec(fy);
        let a = lerp_exec(v0, v1, sx);
        let b = lerp_exec(v2, v3, sx);
        lerp_exec(a, b, sy)
    }
}

fn corner_value_exec(grad: (i64, i64), ox: i64, oy: i64) -> (r: i64)
    requires
        gradient_ok(grad),
        -UNIT <= ox <= UNIT,
        -UNIT <= oy <= UNIT,
    ensures
        r == corner_value((grad.0 as int, grad.1 as int), ox as int, oy as int),
        -2 * UNIT <= r <= 2 * UNIT,
{
    let (gx, gy) = grad;
    let u = UNIT;
    assert(-u * u <= gx * ox <= u * u) by (nonlinear_arith)
        requires
            -u <= gx <= u,
            -u <= ox <= u,
    ;
    assert(-u * u <= gy * oy <= u * u) by (nonlinear_arith)
        requires
            -u <= gy <= u,
            -u <= oy <= u,
    ;
    let dot = gx * ox + gy * oy;
    proof {
        lemma_div_within(dot as int, 2);
    }
    div(dot, UNIT)
}

/// `floor_div(a, UNIT)` stays within `k` units when `a` stays within `k` units squared.
proof fn lemma_div_within(a: int, k: int)
    requires
        k >= 0,
        -k * UNIT * UNIT <= a <= k * UNIT * UNIT,
    ensures
        -k * UNIT <= floor_div(a, UNIT as int) <= k * UNIT,
{
    let u = UNIT as int;
    vstd::arithmetic::div_mod::lemma_div_is_ordered(a, k * u * u, u);
    vstd::arithmetic::div_mod::lemma_div_is_ordered(-k * u * u, a, u);
    assert((k * u * u) / u == k * u) by {
        vstd::arithmetic::div_mod::lemma_div_multiples_vanish(k * u, u);
        assert(k * u * u == u * (k * u)) by (nonlinear_arith);
    }
    assert((-k * u * u) / u == -k * u) by {
        vstd::arithmetic::div_mod::lemma_div_multiples_vanish(-k * u, u);
        assert(-k * u * u == u * (-k * u)) by (nonlinear_arith);
    }
}

fn smooth_exec(t: i64) -> (r: i64)
    requires
        0 <= t <= UNIT,
    ensures
        r == smooth(t as int),
        0 <= r <= UNIT,
{
    let u = UNIT;
    assert(0 <= t * t <= u * u) by (nonlinear_arith)
        requires
            0 <= t <= u,
    ;
    let sq = t * t;
    let s = div(sq, u);
    proof {
        lemma_div_within(sq as int, 1);
        vstd::arithmetic::div_mod::lemma_fundamental_div_mod(sq as int, u as int);
        vstd::arithmetic::div_mod::lemma_mod_bound(sq as int, u as int);
    }
    assert(0 <= s * (3 * u - 2 * t) <= u * u) by (nonlinear_arith)
        requires
            0 <= t <= u,
            0 <= s,
            s * u <= t * t,
            u > 0,
    {
        assert(u * u * u - 3 * u * t * t + 2 * t * t * t == (u - t) * (u - t) * (u + 2 * t));
        assert((u - t) * (u - t) * (u + 2 * t) >= 0);
        assert(s * (3 * u - 2 * t) * u <= t * t * (3 * u - 2 * t));
    }
    let w = s * (3 * u - 2 * t);
    proof {
        lemma_div_within(w as int, 1);
        vstd::arithmetic::div_mod::lemma_div_is_ordered(0, w as int, u as int);
    }
    div(w, u)
}

fn lerp_exec(a: i64, b: i64, v: i64) -> (r: i64)
    requires
        -2 * UNIT <= a <= 2 * UNIT,
        -2 * UNIT <= b <= 2 * UNIT,
        0 <= v <= UNIT,
    ensures
        r == lerp(a as int, b as int, v as int),
        -2 * UNIT <= r <= 2 * UNIT,
{
    let u = UNIT;
    let d = b - a;
    assert(-4 * u * u <= d * v <= 4 * u * u) by (nonlinear_arith)
        requires
            -4 * u <= d <= 4 * u,
            0 <= v <= u,
    ;
    let q = div(d * v, u);
    proof {
        lemma_lerp_between(a as int, b as int, v as int);
    }
    a + q
}

proof fn lemma_lerp_between(a: int, b: int, v: int)
    requires
        0 <= v <= UNIT,
    ensures
        a <= b ==> a <= lerp(a, b, v) <= b,
        b <= a ==> b <= lerp(a, b, v) <= a,
{
    let u = UNIT as int;
    let d = b - a;
    vstd::arithmetic::div_mod::lemma_fundamental_div_mod(d * v, u);
    vstd::arithmetic::div_mod::lemma_mod_bound(d * v, u);
    let q = (d * v) / u;
    if d >= 0 {
        assert(0 <= d * v <= d * u) by (nonlinear_arith)
            requires
                d >= 0,
                0 <= v <= u,
        ;
        assert(0 <= q <= d) by (nonlinear_arith)
            requires
                d * v == u * q + (d * v) % u,
                0 <= (d * v) % u < u,
                0 <= d * v <= d * u,
                u > 0,
        ;
    } else {
        assert(d * u <= d * v <= 0) by (nonlinear_arith)
            requires
                d < 0,
                0 <= v <= u,
        ;
        assert(d <= q <= 0) by (nonlinear_arith)
            requires
                d * v == u * q + (d * v) % u,
                0 <= (d * v) % u < u,
                d * u <= d * v <= 0,
                u > 0,
        ;
    }
}

/// `floor_div` by a unit moves by at most `k` when its argument moves by at
/// most `k` units.
proof fn lemma_div_diff(a: int, b: int, k: int)
    requires
        k >= 0,
        -k * UNIT <= a - b <= k * UNIT,
    ensures
        -k <= floor_div(a, UNIT as int) - floor_div(b, UNIT as int) <= k,
{
    let u = UNIT as int;
    vstd::arithmetic::div_mod::lemma_fundamental_div_mod(a, u);
    vstd::arithmetic::div_mod::lemma_fundamental_div_mod(b, u);
    vstd::arithmetic::div_mod::lemma_mod_bound(a, u);
    vstd::arithmetic::div_mod::lemma_mod_bound(b, u);
    let q = a / u - b / u;
    assert(u * q == (a - b) - (a % u - b % u)) by (nonlinear_arith)
        requires
            a == u * (a / u) + a % u,
            b == u * (b / u) + b % u,
            q == a / u - b / u,
    ;
    if q > k {
        assert(u * q >= u * (k + 1)) by (nonlinear_arith)
            requires
                q >= k + 1,
                u > 0,
        ;
    }
    if q < -k {
        assert(u * q <= u * (-k - 1)) by (nonlinear_arith)
            requires
                q <= -k - 1,
                u > 0,
        ;
    }
}

proof fn lemma_mul_bound(x: int, y: int, bx: int, by: int)
    requires
        -bx <= x <= bx,
        -by <= y <= by,
    ensures
        -(bx * by) <= x * y <= bx * by,
{
    assert(-(bx * by) <= x * y <= bx * by) by (nonlinear_arith)
        requires
            -bx <= x <= bx,
            -by <= y <= by,
    ;
}

proof fn lemma_lattice_gradient_ok(n: Noise2DContext, cx: int, cy: int)
    requires
        n.wf(),
    ensures
        -UNIT <= lattice_gradient(n.gradients(), n.permutation(), cx, cy).0 <= UNIT,
        -UNIT <= lattice_gradient(n.gradients(), n.permutation(), cx, cy).1 <= UNIT,
{
    let p = n.permutation();
    let i = (p[floor_mod(cx, 256)] + p[floor_mod(cy, 256)]) % 256;
    assert(gradient_ok(n.gradients()[i]));
}

proof fn lemma_corner_bound(g: (int, int), ox: int, oy: int)
    requires
        -UNIT <= g.0 <= UNIT,
        -UNIT <= g.1 <= UNIT,
        -UNIT <= ox <= UNIT,
        -UNIT <= oy <= UNIT,
    ensures
        -2 * UNIT <= corner_value(g, ox, oy) <= 2 * UNIT,
{
    let u = UNIT as int;
    lemma_mul_bound(g.0, ox, u, u);
    lemma_mul_bound(g.1, oy, u, u);
    lemma_div_within(g.0 * ox + g.1 * oy, 2);
}

/// Moving one offset of a corner by one fixed-point unit moves its
/// contribution by at most one.
proof fn lemma_corner_step(g: (int, int), ox: int, oy: int, ox2: int, oy2: int)
    requires
        -UNIT <= g.0 <= UNIT,
        -UNIT <= g.1 <= UNIT,
        (ox2 == ox + 1 && oy2 == oy) || (ox2 == ox && oy2 == oy + 1),
    ensures
        -1 <= corner_value(g, ox2, oy2) - corner_value(g, ox, oy) <= 1,
{
    let n1 = g.0 * ox + g.1 * oy;
    let n2 = g.0 * ox2 + g.1 * oy2;
    assert(n2 - n1 == g.0 * (ox2 - ox) + g.1 * (oy2 - oy)) by (nonlinear_arith)
        requires
            n1 == g.0 * ox + g.1 * oy,
            n2 == g.0 * ox2 + g.1 * oy2,
    ;
    if ox2 == ox + 1 {
        assert(g.0 * (ox2 - ox) + g.1 * (oy2 - oy) == g.0) by (nonlinear_arith)
            requires
                ox2 - ox == 1,
                oy2 - oy == 0,
        ;
    } else {
        assert(g.0 * (ox2 - ox) + g.1 * (oy2 - oy) == g.1) by (nonlinear_arith)
            requires
                ox2 - ox == 0,
                oy2 - oy == 1,
        ;
    }
    lemma_div_diff(n2, n1, 1);
}

/// One unit short of the end, the smoothstep weight is one unit short of full.
proof fn lemma_smooth_last()
    ensures
        smooth(UNIT - 1) == UNIT - 1,
        smooth(0) == 0,
{
    let u = UNIT as int;
    let t = u - 1;
    assert(t * t == 999998000001) by (nonlinear_arith)
        requires
            t == 999999,
    ;
    vstd::arithmetic::div_mod::lemma_fundamental_div_mod_converse(t * t, u, 999998, 1);
    assert(999998 * (3 * u - 2 * t) == 999999999996) by (nonlinear_arith)
        requires
            t == 999999,
            u == 1000000,
    ;
    vstd::arithmetic::div_mod::lemma_fundamental_div_mod_converse(999999999996, u, 999999, 999996);
    assert(0int * 0 == 0);
    vstd::arithmetic::div_mod::lemma_fundamental_div_mod_converse(0, u, 0, 0);
    assert(0 * (3 * u - 2 * 0) == 0);
}

proof fn lemma_smooth_bounds(t: int)
    requires
        0 <= t <= UNIT,
    ensures
        0 <= smooth(t) <= UNIT,
        0 <= floor_div(t * t, UNIT as int) <= UNIT,
{
    let u = UNIT as int;
    assert(0 <= t * t <= u * u) by (nonlinear_arith)
        requires
            0 <= t <= u,
    ;
    let s = (t * t) / u;
    lemma_div_within(t * t, 1);
    vstd::arithmetic::div_mod::lemma_fundamental_div_mod(t * t, u);
    vstd::arithmetic::div_mod::lemma_mod_bound(t * t, u);
    vstd::arithmetic::div_mod::lemma_div_is_ordered(0, t * t, u);
    assert(0 <= s * (3 * u - 2 * t) <= u * u) by (nonlinear_arith)
        requires
            0 <= t <= u,
            0 <= s,
            s * u <= t * t,
            u > 0,
    {
        assert(u * u * u - 3 * u * t * t + 2 * t * t * t == (u - t) * (u - t) * (u + 2 * t));
        assert((u - t) * (u - t) * (u + 2 * t) >= 0);
        assert(s * (3 * u - 2 * t) * u <= t * t * (3 * u - 2 * t));
    }
    lemma_div_within(s * (3 * u - 2 * t), 1);
    vstd::arithmetic::div_mod::lemma_div_is_ordered(0, s * (3 * u - 2 * t), u);
}

/// The smoothstep weight moves by at most six per fixed-point unit.
proof fn lemma_smooth_step(t: int)
    requires
        0 <= t,
        t + 1 <= UNIT,
    ensures
        -6 <= smooth(t + 1) - smooth(t) <= 6,
{
    let u = UNIT as int;
    lemma_smooth_bounds(t);
    lemma_smooth_bounds(t + 1);
    let s = (t * t) / u;
    let s1 = ((t + 1) * (t + 1)) / u;
    assert((t + 1) * (t + 1) - t * t == 2 * t + 1) by (nonlinear_arith);
    lemma_div_diff((t + 1) * (t + 1), t * t, 2);
    vstd::arithmetic::div_mod::lemma_div_is_ordered(t * t, (t + 1) * (t + 1), u);
    let w = s * (3 * u - 2 * t);
    let w1 = s1 * (3 * u - 2 * (t + 1));
    assert(w1 - w == (s1 - s) * (3 * u - 2 * t - 2) - 2 * s) by (nonlinear_arith)
        requires
            w == s * (3 * u - 2 * t),
            w1 == s1 * (3 * u - 2 * (t + 1)),
    ;
    assert(0 <= (s1 - s) * (3 * u - 2 * t - 2) <= 2 * (3 * u)) by (nonlinear_arith)
        requires
            0 <= s1 - s <= 2,
            0 <= 3 * u - 2 * t - 2 <= 3 * u,
    ;
    lemma_div_diff(w1, w, 6);
}

/// Interpolations of nearby endpoints by nearby weights stay nearby.
proof fn lemma_lerp_diff(a: int, b: int, v: int, a2: int, b2: int, v2: int, da: int, db: int, dv: int)
    requires
        -da <= a2 - a <= da,
        -db <= b2 - b <= db,
        -dv <= v2 - v <= dv,
        -4 * UNIT <= b2 - a2 <= 4 * UNIT,
        0 <= v <= UNIT,
    ensures
        -(2 * da + db + 4 * dv) <= lerp(a2, b2, v2) - lerp(a, b, v) <= 2 * da + db + 4 * dv,
{
    let u = UNIT as int;
    let p = (b - a) * v;
    let p2 = (b2 - a2) * v2;
    assert(p2 - p == (b2 - a2) * (v2 - v) + ((b2 - a2) - (b - a)) * v) by (nonlinear_arith)
        requires
            p == (b - a) * v,
            p2 == (b2 - a2) * v2,
    ;
    lemma_mul_bound(b2 - a2, v2 - v, 4 * u, dv);
    lemma_mul_bound((b2 - a2) - (b - a), v, da + db, u);
    assert(4 * u * dv + (da + db) * u == (4 * dv + da + db) * u) by (nonlinear_arith);
    lemma_div_diff(p2, p, 4 * dv + da + db);
}

/// Interpolating with the weight one unit short of the end lands within
/// four of the far endpoint.
proof fn lemma_lerp_near_end(a: int, b: int)
    requires
        -4 * UNIT <= b - a <= 4 * UNIT,
    ensures
        -4 <= lerp(a, b, UNIT - 1) - b <= 4,
        lerp(a, b, 0) == a,
{
    let u = UNIT as int;
    let d = b - a;
    assert(d * (u - 1) == d * u - d) by (nonlinear_arith);
    vstd::arithmetic::div_mod::lemma_div_multiples_vanish(d, u);
    assert(d * u == u * d) by (nonlinear_arith);
    lemma_div_diff(d * (u - 1), d * u, 4);
}

proof fn lemma_lerp_range(a: int, b: int, v: int)
    requires
        -2 * UNIT <= a <= 2 * UNIT,
        -2 * UNIT <= b <= 2 * UNIT,
        0 <= v <= UNIT,
    ensures
        -2 * UNIT <= lerp(a, b, v) <= 2 * UNIT,
{
    lemma_lerp_between(a, b, v);
}

proof fn lemma_cell_step(x: int)
    ensures
        floor_mod(x, UNIT as int) < UNIT - 1 ==> floor_div(x + 1, UNIT as int) == floor_div(x, UNIT as int)
            && floor_mod(x + 1, UNIT as int) == floor_mod(x, UNIT as int) + 1,
        floor_mod(x, UNIT as int) == UNIT - 1 ==> floor_div(x + 1, UNIT as int) == floor_div(x, UNIT as int) + 1
            && floor_mod(x + 1, UNIT as int) == 0,
        0 <= floor_mod(x, UNIT as int) < UNIT,
{
    let u = UNIT as int;
    vstd::arithmetic::div_mod::lemma_fundamental_div_mod(x, u);
    vstd::arithmetic::div_mod::lemma_mod_bound(x, u);
    if x % u < u - 1 {
        vstd::arithmetic::div_mod::lemma_fundamental_div_mod_converse(x + 1, u, x / u, x % u + 1);
    } else {
        assert(x + 1 == (x / u + 1) * u + 0) by (nonlinear_arith)
            requires
                x == u * (x / u) + x % u,
                x % u == u - 1,
        ;
        vstd::arithmetic::div_mod::lemma_fundamental_div_mod_converse(x + 1, u, x / u + 1, 0);
    }
}

/// The noise is continuous at the fixed-point resolution: one unit of
/// movement along x changes it by at most 81 units.
pub proof fn lemma_noise_step_x(n: Noise2DContext, x: int, y: int)
    requires
        n.wf(),
    ensures
        -81 <= noise_value(n.gradients(), n.permutation(), x + 1, y) - noise_value(n.gradients(), n.permutation(), x, y) <= 81,
{
    let (g, p) = (n.gradients(), n.permutation());
    let u = UNIT as int;
    let (cx, cy) = (floor_div(x, u), floor_div(y, u));
    let (fx, fy) = (floor_mod(x, u), floor_mod(y, u));
    lemma_cell_step(x);
    lemma_cell_step(y);
    let g0 = lattice_gradient(g, p, cx, cy);
    let g1 = lattice_gradient(g, p, cx + 1, cy);
    let g2 = lattice_gradient(g, p, cx, cy + 1);
    let g3 = lattice_gradient(g, p, cx + 1, cy + 1);
    lemma_lattice_gradient_ok(n, cx, cy);
    lemma_lattice_gradient_ok(n, cx + 1, cy);
    lemma_lattice_gradient_ok(n, cx, cy + 1);
    lemma_lattice_gradient_ok(n, cx + 1, cy + 1);
    let v0 = corner_value(g0, fx, fy);
    let v1 = corner_value(g1, fx - u, fy);
    let v2 = corner_value(g2, fx, fy - u);
    let v3 = corner_value(g3, fx - u, fy - u);
    lemma_corner_bound(g0, fx, fy);
    lemma_corner_bound(g1, fx - u, fy);
    lemma_corner_bound(g2, fx, fy - u);
    lemma_corner_bound(g3, fx - u, fy - u);
    let sx = smooth(fx);
    let sy = smooth(fy);
    lemma_smooth_bounds(fx);
    lemma_smooth_bounds(fy);
    let a = lerp(v0, v1, sx);
    let b = lerp(v2, v3, sx);
    lemma_lerp_range(v0, v1, sx);
    lemma_lerp_range(v2, v3, sx);
    assert(noise_value(g, p, x, y) == lerp(a, b, sy));
    if fx < u - 1 {
        let v0b = corner_value(g0, fx + 1, fy);
        let v1b = corner_value(g1, fx + 1 - u, fy);
        let v2b = corner_value(g2, fx + 1, fy - u);
        let v3b = corner_value(g3, fx + 1 - u, fy - u);
        lemma_corner_step(g0, fx, fy, fx + 1, fy);
        lemma_corner_step(g1, fx - u, fy, fx + 1 - u, fy);
        lemma_corner_step(g2, fx, fy - u, fx + 1, fy - u);
        lemma_corner_step(g3, fx - u, fy - u, fx + 1 - u, fy - u);
        lemma_corner_bound(g0, fx + 1, fy);
        lemma_corner_bound(g1, fx + 1 - u, fy);
        lemma_corner_bound(g2, fx + 1, fy - u);
        lemma_corner_bound(g3, fx + 1 - u, fy - u);
        let sxb = smooth(fx + 1);
        lemma_smooth_step(fx);
        lemma_smooth_bounds(fx + 1);
        let ab = lerp(v0b, v1b, sxb);
        let bb = lerp(v2b, v3b, sxb);
        lemma_lerp_range(v0b, v1b, sxb);
        lemma_lerp_range(v2b, v3b, sxb);
        lemma_lerp_diff(v0, v1, sx, v0b, v1b, sxb, 1, 1, 6);
        lemma_lerp_diff(v2, v3, sx, v2b, v3b, sxb, 1, 1, 6);
        assert(noise_value(g, p, x + 1, y) == lerp(ab, bb, sy));
        lemma_lerp_diff(a, b, sy, ab, bb, sy, 27, 27, 0);
    } else {
        // crossing into the next cell: its first corners are this cell's last
        let g5 = lattice_gradient(g, p, cx + 2, cy);
        let g7 = lattice_gradient(g, p, cx + 2, cy + 1);
        lemma_lattice_gradient_ok(n, cx + 2, cy);
        lemma_lattice_gradient_ok(n, cx + 2, cy + 1);
        let v0b = corner_value(g1, 0, fy);
        let v1b = corner_value(g5, -u, fy);
        let v2b = corner_value(g3, 0, fy - u);
        let v3b = corner_value(g7, -u, fy - u);
        lemma_corner_step(g1, -1, fy, 0, fy);
        lemma_corner_step(g3, -1, fy - u, 0, fy - u);
        lemma_corner_bound(g1, 0, fy);
        lemma_corner_bound(g5, -u, fy);
        lemma_corner_bound(g3, 0, fy - u);
        lemma_corner_bound(g7, -u, fy - u);
        lemma_smooth_last();
        lemma_lerp_near_end(v0, v1);
        lemma_lerp_near_end(v2, v3);
        lemma_lerp_near_end(v0b, v1b);
        lemma_lerp_near_end(v2b, v3b);
        assert(cx + 1 + 1 == cx + 2);
        assert(noise_value(g, p, x + 1, y) == lerp(v0b, v2b, sy));
        lemma_lerp_diff(a, b, sy, v0b, v2b, sy, 5, 5, 0);
    }
}

/// The noise is continuous at the fixed-point resolution: one unit of
/// movement along y changes it by at most 33 units.
pub proof fn lemma_noise_step_y(n: Noise2DContext, x: int, y: int)
    requires
        n.wf(),
    ensures
        -33 <= noise_value(n.gradients(), n.permutation(), x, y + 1) - noise_value(n.gradients(), n.permutation(), x, y) <= 33,
{
    let (g, p) = (n.gradients(), n.permutation());
    let u = UNIT as int;
    let (cx, cy) = (floor_div(x, u), floor_div(y, u));
    let (fx, fy) = (floor_mod(x, u), floor_mod(y, u));
    lemma_cell_step(x);
    lemma_cell_step(y);
    let g0 = lattice_gradient(g, p, cx, cy);
    let g1 = lattice_gradient(g, p, cx + 1, cy);
    let g2 = lattice_gradient(g, p, cx, cy + 1);
    let g3 = lattice_gradient(g, p, cx + 1, cy + 1);
    lemma_lattice_gradient_ok(n, cx, cy);
    lemma_lattice_gradient_ok(n, cx + 1, cy);
    lemma_lattice_gradient_ok(n, cx, cy + 1);
    lemma_lattice_gradient_ok(n, cx + 1, cy + 1);
    let v0 = corner_value(g0, fx, fy);
    let v1 = corner_value(g1, fx - u, fy);
    let v2 = corner_value(g2, fx, fy - u);
    let v3 = corner_value(g3, fx - u, fy - u);
    lemma_corner_bound(g0, fx, fy);
    lemma_corner_bound(g1, fx - u, fy);
    lemma_corner_bound(g2, fx, fy - u);
    lemma_corner_bound(g3, fx - u, fy - u);
    let sx = smooth(fx);
    let sy = smooth(fy);
    lemma_smooth_bounds(fx);
    lemma_smooth_bounds(fy);
    let a = lerp(v0, v1, sx);
    let b = lerp(v2, v3, sx);
    lemma_lerp_range(v0, v1, sx);
    lemma_lerp_range(v2, v3, sx);
    assert(noise_value(g, p, x, y) == lerp(a, b, sy));
    if fy < u - 1 {
        let v0b = corner_value(g0, fx, fy + 1);
        let v1b = corner_value(g1, fx - u, fy + 1);
        let v2b = corner_value(g2, fx, fy + 1 - u);
        let v3b = corner_value(g3, fx - u, fy + 1 - u);
        lemma_corner_step(g0, fx, fy, fx, fy + 1);
        lemma_corner_step(g1, fx - u, fy, fx - u, fy + 1);
        lemma_corner_step(g2, fx, fy - u, fx, fy + 1 - u);
        lemma_corner_step(g3, fx - u, fy - u, fx - u, fy + 1 - u);
        lemma_corner_bound(g0, fx, fy + 1);
        lemma_corner_bound(g1, fx - u, fy + 1);
        lemma_corner_bound(g2, fx, fy + 1 - u);
        lemma_corner_bound(g3, fx - u, fy + 1 - u);
        let syb = smooth(fy + 1);
        lemma_smooth_step(fy);
        let ab = lerp(v0b, v1b, sx);
        let bb = lerp(v2b, v3b, sx);
        lemma_lerp_range(v0b, v1b, sx);
        lemma_lerp_range(v2b, v3b, sx);
        lemma_lerp_diff(v0, v1, sx, v0b, v1b, sx, 1, 1, 0);
        lemma_lerp_diff(v2, v3, sx, v2b, v3b, sx, 1, 1, 0);
        assert(noise_value(g, p, x, y + 1) == lerp(ab, bb, syb));
        lemma_lerp_diff(a, b, sy, ab, bb, syb, 3, 3, 6);
    } else {
        // crossing into the next row of cells: its lower corners are this cell's upper ones
        let g6 = lattice_gradient(g, p, cx, cy + 2);
        let g7 = lattice_gradient(g, p, cx + 1, cy + 2);
        lemma_lattice_gradient_ok(n, cx, cy + 2);
        lemma_lattice_gradient_ok(n, cx + 1, cy + 2);
        let v0b = corner_value(g2, fx, 0);
        let v1b = corner_value(g3, fx - u, 0);
        let v2b = corner_value(g6, fx, -u);
        let v3b = corner_value(g7, fx - u, -u);
        lemma_corner_step(g2, fx, -1, fx, 0);
        lemma_corner_step(g3, fx - u, -1, fx - u, 0);
        lemma_corner_bound(g2, fx, 0);
        lemma_corner_bound(g3, fx - u, 0);
        lemma_corner_bound(g6, fx, -u);
        lemma_corner_bound(g7, fx - u, -u);
        lemma_smooth_last();
        let ab = lerp(v0b, v1b, sx);
        let bb = lerp(v2b, v3b, sx);
        lemma_lerp_range(v0b, v1b, sx);
        lemma_lerp_range(v2b, v3b, sx);
        lemma_lerp_near_end(a, b);
        lemma_lerp_near_end(ab, bb);
        assert(cy + 1 + 1 == cy + 2);
        assert(noise_value(g, p, x, y + 1) == lerp(ab, bb, 0));
        lemma_lerp_diff(v2, v3, sx, v0b, v1b, sx, 1, 1, 0);
    }
}

/// The noise is a function of the tables and the point alone: two fields
/// built from the same tables agree everywhere.
pub proof fn lemma_noise_deterministic(n1: Noise2DContext, n2: Noise2DContext, x: int, y: int)
    requires
        n1.gradients() == n2.gradients(),
        n1.permutation() == n2.permutation(),
    ensures
        noise_value(n1.gradients(), n1.permutation(), x, y) == noise_value(n2.gradients(), n2.permutation(), x, y),
{
}

/// Continuity of the noise: moving the sample point by `dx` units along x
/// and `dy` units along y changes the value by at most `81 dx + 33 dy`
/// units, so nearby points give nearby values and there are no seams at
/// lattice cell boundaries.
pub proof fn lemma_noise_continuous(n: Noise2DContext, x: int, y: int, dx: nat, dy: nat)
    requires
        n.wf(),
    ensures
        -(81 * dx + 33 * dy) <= noise_value(n.gradients(), n.permutation(), x + dx, y + dy)
            - noise_value(n.gradients(), n.permutation(), x, y) <= 81 * dx + 33 * dy,
    decreases dx + dy,
{
    if dx > 0 {
        lemma_noise_continuous(n, x, y, (dx - 1) as nat, dy);
        lemma_noise_step_x(n, x + dx - 1, y + dy);
    } else if dy > 0 {
        lemma_noise_continuous(n, x, y, dx, (dy - 1) as nat);
        lemma_noise_step_y(n, x + dx, y + dy - 1);
    }
}

} // verus!
