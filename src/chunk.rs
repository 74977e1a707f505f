use vstd::prelude::*;
use crate::common::{Vec3, TripleFloor, floor_cell, UNIT};

verus! {

/// The kind of a block cell.
#[derive(Clone, Copy, Debug, PartialEq, Eq, Structural)]
pub enum Block {
    Air,
    Grass,
    Stone,
    Dirt,
}

impl Block {
    /// Every block but air is solid.
    pub open spec fn is_solid(self) -> bool {
        !(self is Air)
    }

    pub open spec fn top_texture_spec(self) -> usize {
        match self {
            Block::Air => 0,
            Block::Grass => 0,
            Block::Stone => 1,
            Block::Dirt => 2,
        }
    }

    pub open spec fn side_texture_spec(self) -> usize {
        match self {
            Block::Air => 0,
            Block::Grass => 3,
            Block::Stone => 1,
            Block::Dirt => 2,
        }
    }

    /// Whether the block obstructs movement and rays.
    pub fn blocks(&self) -> (r: bool)
        ensures
            r == self.is_solid(),
    {
        match *self {
            Block::Air => false,
            Block::Grass | Block::Stone | Block::Dirt => true,
        }
    }

    /// Texture layer of the top face.
    pub fn top_texture_id(&self) -> (r: usize)
        ensures
            r == self.top_texture_spec(),
    {
        match *self {
            Block::Air => 0,
            Block::Grass => 0,
            Block::Stone => 1,
            Block::Dirt => 2,
        }
    }

    /// Texture layer of the side and bottom faces.
    pub fn side_texture_id(&self) -> (r: usize)
        ensures
            r == self.side_texture_spec(),
    {
        match *self {
            Block::Air => 0,
            Block::Grass => 3,
            Block::Stone => 1,
            Block::Dirt => 2,
        }
    }

    /// Time needed to break the block, in millionths of a second.
    pub fn breaking_time(&self) -> (r: i64)
        ensures
            r == UNIT / 2,
    {
        UNIT / 2
    }
}

pub open spec fn v3(x: int, y: int, z: int) -> Vec3 {
    Vec3 { x: x as i64, y: y as i64, z: z as i64 }
}

/// The 24 corners of the axis-aligned cube centred on `(x, y, z)` with
/// half-extent `n`: four per face, faces in the order top, bottom, left,
/// right, front, back.
pub open spec fn cube_spec(x: int, y: int, z: int, n: int) -> Seq<Vec3> {
    seq![
        v3(x - n, y + n, z - n), v3(x - n, y + n, z + n), v3(x + n, y + n, z + n), v3(x + n, y + n, z - n),
        v3(x - n, y - n, z - n), v3(x + n, y - n, z - n), v3(x + n, y - n, z + n), v3(x - n, y - n, z + n),
        v3(x - n, y - n, z - n), v3(x - n, y - n, z + n), v3(x - n, y + n, z + n), v3(x - n, y + n, z - n),
        v3(x + n, y - n, z + n), v3(x + n, y - n, z - n), v3(x + n, y + n, z - n), v3(x + n, y + n, z + n),
        v3(x - n, y - n, z + n), v3(x + n, y - n, z + n), v3(x + n, y + n, z + n), v3(x - n, y + n, z + n),
        v3(x + n, y - n, z - n), v3(x - n, y - n, z - n), v3(x - n, y + n, z - n), v3(x + n, y + n, z - n),
    ]
}

/// Texture coordinates `(u, v, layer)` of a cube's 24 corners: layer `tid`
/// on the top face, layer `tid2` on the five others.
pub open spec fn cube_texcoord_spec(tid: int, tid2: int) -> Seq<Vec3> {
    let u = UNIT as int;
    let a = tid * u;
    let b = tid2 * u;
    seq![
        v3(0, 0, a), v3(0, u, a), v3(u, u, a), v3(u, 0, a),
        v3(0, 0, b), v3(0, u, b), v3(u, u, b), v3(u, 0, b),
        v3(0, u, b), v3(u, u, b), v3(u, 0, b), v3(0, 0, b),
        v3(0, u, b), v3(u, u, b), v3(u, 0, b), v3(0, 0, b),
        v3(0, u, b), v3(u, u, b), v3(u, 0, b), v3(0, 0, b),
        v3(0, u, b), v3(u, u, b), v3(u, 0, b), v3(0, 0, b),
    ]
}

/// Unit outward normals of a cube's 24 corners, face by face.
pub open spec fn cube_normal_spec() -> Seq<Vec3> {
    let u = UNIT as int;
    seq![
        v3(0, u, 0), v3(0, u, 0), v3(0, u, 0), v3(0, u, 0),
        v3(0, -u, 0), v3(0, -u, 0), v3(0, -u, 0), v3(0, -u, 0),
        v3(-u, 0, 0), v3(-u, 0, 0), v3(-u, 0, 0), v3(-u, 0, 0),
        v3(u, 0, 0), v3(u, 0, 0), v3(u, 0, 0), v3(u, 0, 0),
        v3(0, 0, u), v3(0, 0, u), v3(0, 0, u), v3(0, 0, u),
        v3(0, 0, -u), v3(0, 0, -u), v3(0, 0, -u), v3(0, 0, -u),
    ]
}

/// Corners of the cube centred on `(x, y, z)` with half-extent `n`.
pub fn make_cube(x: i64, y: i64, z: i64, n: i64) -> (r: Vec<Vec3>)
    requires
        i64::MIN <= x - n, x + n <= i64::MAX,
        i64::MIN <= y - n, y + n <= i64::MAX,
        i64::MIN <= z - n, z + n <= i64::MAX,
        n >= 0,
    ensures
        r@ == cube_spec(x as int, y as int, z as int, n as int),
{
    let (x0, x1, y0, y1, z0, z1) = (x - n, x + n, y - n, y + n, z - n, z + n);
    let r = vec![
        Vec3::new(x0, y1, z0), Vec3::new(x0, y1, z1), Vec3::new(x1, y1, z1), Vec3::new(x1, y1, z0),
        Vec3::new(x0, y0, z0), Vec3::new(x1, y0, z0), Vec3::new(x1, y0, z1), Vec3::new(x0, y0, z1),
        Vec3::new(x0, y0, z0), Vec3::new(x0, y0, z1), Vec3::new(x0, y1, z1), Vec3::new(x0, y1, z0),
        Vec3::new(x1, y0, z1), Vec3::new(x1, y0, z0), Vec3::new(x1, y1, z0), Vec3::new(x1, y1, z1),
        Vec3::new(x0, y0, z1), Vec3::new(x1, y0, z1), Vec3::new(x1, y1, z1), Vec3::new(x0, y1, z1),
        Vec3::new(x1, y0, z0), Vec3::new(x0, y0, z0), Vec3::new(x0, y1, z0), Vec3::new(x1, y1, z0),
    ];
    assert(r@ =~= cube_spec(x as int, y as int, z as int, n as int));
    r
}

/// Texture coordinates of a cube: layer `tid` on top, `tid2` elsewhere.
pub fn make_cube_texcoord(tid: usize, tid2: usize) -> (r: Vec<Vec3>)
    requires
        tid * UNIT <= i64::MAX,
        tid2 * UNIT <= i64::MAX,
    ensures
        r@ == cube_texcoord_spec(tid as int, tid2 as int),
{
    let u = UNIT;
    let a = tid as i64 * u;
    let b = tid2 as i64 * u;
    let r = vec![
        Vec3::new(0, 0, a), Vec3::new(0, u, a), Vec3::new(u, u, a), Vec3::new(u, 0, a),
        Vec3::new(0, 0, b), Vec3::new(0, u, b), Vec3::new(u, u, b), Vec3::new(u, 0, b),
        Vec3::new(0, u, b), Vec3::new(u, u, b), Vec3::new(u, 0, b), Vec3::new(0, 0, b),
        Vec3::new(0, u, b), Vec3::new(u, u, b), Vec3::new(u, 0, b), Vec3::new(0, 0, b),
        Vec3::new(0, u, b), Vec3::new(u, u, b), Vec3::new(u, 0, b), Vec3::new(0, 0, b),
        Vec3::new(0, u, b), Vec3::new(u, u, b), Vec3::new(u, 0, b), Vec3::new(0, 0, b),
    ];
    assert(r@ =~= cube_texcoord_spec(tid as int, tid2 as int));
    r
}

/// Outward normals of a cube's corners.
pub fn make_cube_normal() -> (r: Vec<Vec3>)
    ensures
        r@ == cube_normal_spec(),
{
    let u = UNIT;
    let m = -u;
    let r = vec![
        Vec3::new(0, u, 0), Vec3::new(0, u, 0), Vec3::new(0, u, 0), Vec3::new(0, u, 0),
        Vec3::new(0, m, 0), Vec3::new(0, m, 0), Vec3::new(0, m, 0), Vec3::new(0, m, 0),
        Vec3::new(m, 0, 0), Vec3::new(m, 0, 0), Vec3::new(m, 0, 0), Vec3::new(m, 0, 0),
        Vec3::new(u, 0, 0), Vec3::new(u, 0, 0), Vec3::new(u, 0, 0), Vec3::new(u, 0, 0),
        Vec3::new(0, 0, u), Vec3::new(0, 0, u), Vec3::new(0, 0, u), Vec3::new(0, 0, u),
        Vec3::new(0, 0, m), Vec3::new(0, 0, m), Vec3::new(0, 0, m), Vec3::new(0, 0, m),
    ];
    assert(r@ =~= cube_normal_spec());
    r
}


/// Linear position of local cell `(x, y, z)` in a chunk's block array.
pub open spec fn local_index(x: int, y: int, z: int) -> int {
    y * 256 + z * 16 + x
}

pub open spec fn in_chunk(x: int, y: int, z: int) -> bool {
    0 <= x < 16 && 0 <= y < 16 && 0 <= z < 16
}

/// What a lookup of local cell `(x, y, z)` reports on the block array `cells`.
pub open spec fn cell_block(cells: Seq<Block>, x: int, y: int, z: int) -> Option<Block> {
    if in_chunk(x, y, z) {
        Some(cells[local_index(x, y, z)])
    } else {
        None
    }
}

/// The local cell `(x, y, z)` visited at step `k` of the fixed traversal
/// order: `y` outermost, then `x`, then `z` innermost.
pub open spec fn visit_cell(k: int) -> (int, int, int) {
    ((k / 16) % 16, k / 256, k % 16)
}

pub open spec fn visit_index(k: int) -> int {
    let (x, y, z) = visit_cell(k);
    local_index(x, y, z)
}

/// Geometry that one block at local cell `(x, y, z)` contributes: nothing for
/// air, else a unit cube centred on the cell.
pub open spec fn block_geometry(b: Block, x: int, y: int, z: int) -> (Seq<Vec3>, Seq<Vec3>, Seq<Vec3>) {
    let u = UNIT as int;
    if b.is_solid() {
        (
            cube_spec(x * u + u / 2, y * u + u / 2, z * u + u / 2, u / 2),
            cube_texcoord_spec(b.top_texture_spec() as int, b.side_texture_spec() as int),
            cube_normal_spec(),
        )
    } else {
        (Seq::empty(), Seq::empty(), Seq::empty())
    }
}

/// Positions, texture coordinates and normals of the first `k` cells of the
/// traversal order.
pub open spec fn geometry_upto(cells: Seq<Block>, k: nat) -> (Seq<Vec3>, Seq<Vec3>, Seq<Vec3>)
    decreases k,
{
    if k == 0 {
        (Seq::empty(), Seq::empty(), Seq::empty())
    } else {
        let prev = geometry_upto(cells, (k - 1) as nat);
        let (x, y, z) = visit_cell(k - 1);
        let g = block_geometry(cells[local_index(x, y, z)], x, y, z);
        (prev.0 + g.0, prev.1 + g.1, prev.2 + g.2)
    }
}

/// Renderable geometry of a whole chunk.
pub open spec fn geometry(cells: Seq<Block>) -> (Seq<Vec3>, Seq<Vec3>, Seq<Vec3>) {
    geometry_upto(cells, 4096)
}

/// Number of solid blocks among the first `k` cells of the traversal order.
pub open spec fn solid_upto(cells: Seq<Block>, k: nat) -> nat
    decreases k,
{
    if k == 0 {
        0
    } else {
        solid_upto(cells, (k - 1) as nat) + if cells[visit_index(k - 1)].is_solid() {
            1nat
        } else {
            0nat
        }
    }
}

/// Number of solid blocks in a chunk.
pub open spec fn solid_count(cells: Seq<Block>) -> nat {
    solid_upto(cells, 4096)
}

proof fn lemma_visit_cell(x: int, y: int, z: int)
    requires
        in_chunk(x, y, z),
    ensures
        visit_cell(y * 256 + x * 16 + z) == (x, y, z),
{
    let k = y * 256 + x * 16 + z;
    assert(k == (y * 16 + x) * 16 + z) by (nonlinear_arith)
        requires
            k == y * 256 + x * 16 + z,
    ;
    vstd::arithmetic::div_mod::lemma_fundamental_div_mod_converse(k, 16, y * 16 + x, z);
    vstd::arithmetic::div_mod::lemma_fundamental_div_mod_converse(y * 16 + x, 16, y, x);
    vstd::arithmetic::div_mod::lemma_fundamental_div_mod_converse(k, 256, y, x * 16 + z);
}

proof fn lemma_geometry_len(cells: Seq<Block>, k: nat)
    ensures
        geometry_upto(cells, k).0.len() == 24 * solid_upto(cells, k),
        geometry_upto(cells, k).1.len() == 24 * solid_upto(cells, k),
        geometry_upto(cells, k).2.len() == 24 * solid_upto(cells, k),
    decreases k,
{
    if k > 0 {
        lemma_geometry_len(cells, (k - 1) as nat);
    }
}

/// Step of the traversal order at which the cell stored at `i` is visited.
pub open spec fn visit_rank(i: int) -> int {
    (i / 256) * 256 + (i % 16) * 16 + (i / 16) % 16
}

proof fn lemma_decompose(i: int)
    requires
        0 <= i < 4096,
    ensures
        i == local_index(i % 16, i / 256, (i / 16) % 16),
        in_chunk(i % 16, i / 256, (i / 16) % 16),
{
    vstd::arithmetic::div_mod::lemma_fundamental_div_mod(i, 16);
    vstd::arithmetic::div_mod::lemma_fundamental_div_mod(i / 16, 16);
    vstd::arithmetic::div_mod::lemma_div_denominator(i, 16, 16);
    vstd::arithmetic::div_mod::lemma_mod_bound(i, 16);
    vstd::arithmetic::div_mod::lemma_mod_bound(i / 16, 16);
    assert(i == (i / 256) * 256 + ((i / 16) % 16) * 16 + i % 16) by (nonlinear_arith)
        requires
            i == 16 * (i / 16) + i % 16,
            i / 16 == 16 * ((i / 16) / 16) + (i / 16) % 16,
            (i / 16) / 16 == i / 256,
    ;
    assert(i / 256 < 16);
}

/// Visiting order and storage order are two numberings of the same cells.
proof fn lemma_visit_rank(i: int, k: int)
    requires
        0 <= i < 4096,
        0 <= k < 4096,
    ensures
        0 <= visit_rank(i) < 4096,
        visit_index(visit_rank(i)) == i,
        visit_index(k) == i <==> k == visit_rank(i),
{
    lemma_decompose(i);
    let (x, y, z) = (i % 16, i / 256, (i / 16) % 16);
    lemma_visit_cell(x, y, z);
    lemma_decompose_visit(k);
}

proof fn lemma_decompose_visit(k: int)
    requires
        0 <= k < 4096,
    ensures
        visit_rank(visit_index(k)) == k,
        0 <= visit_index(k) < 4096,
{
    let (x, y, z) = visit_cell(k);
    lemma_decompose(k);
    let (a, b, c) = (k % 16, k / 256, (k / 16) % 16);
    // k == b * 256 + c * 16 + a: visit_cell(k) == (c, b, a)
    lemma_visit_cell(c, b, a);
    assert(visit_cell(b * 256 + c * 16 + a) == (c, b, a));
    let i = local_index(c, b, a);
    assert(i == b * 256 + a * 16 + c);
    lemma_visit_cell(a, b, c);
}

/// Changing the block stored at `i` changes the solid count by the
/// difference in solidity, once the traversal has passed `i`.
proof fn lemma_solid_upto_update(cells: Seq<Block>, i: int, b: Block, k: nat)
    requires
        cells.len() == 4096,
        0 <= i < 4096,
        k <= 4096,
    ensures
        solid_upto(cells.update(i, b), k) as int == solid_upto(cells, k) as int + if visit_rank(i) < k {
            (if b.is_solid() { 1int } else { 0int }) - (if cells[i].is_solid() { 1int } else { 0int })
        } else {
            0int
        },
    decreases k,
{
    if k > 0 {
        lemma_solid_upto_update(cells, i, b, (k - 1) as nat);
        lemma_visit_rank(i, k - 1);
        lemma_decompose_visit(k - 1);
    }
}

/// Changing one block changes the solid count by the difference in
/// solidity between the new block and the old one.
pub proof fn lemma_solid_count_update(cells: Seq<Block>, i: int, b: Block)
    requires
        cells.len() == 4096,
        0 <= i < 4096,
    ensures
        solid_count(cells.update(i, b)) as int == solid_count(cells) as int
            + (if b.is_solid() { 1int } else { 0int }) - (if cells[i].is_solid() { 1int } else { 0int }),
{
    lemma_visit_rank(i, 0);
    lemma_solid_upto_update(cells, i, b, 4096);
}

/// A lookup outside `[0, 16)` on any axis reports no block.
pub proof fn lemma_block_at_out_of_range(cells: Seq<Block>, x: int, y: int, z: int)
    requires
        x < 0 || x >= 16 || y < 0 || y >= 16 || z < 0 || z >= 16,
    ensures
        cell_block(cells, x, y, z) is None,
{
}

/// Fixed-point centre of the cell with local coordinate `c`.
fn cell_center(c: i64) -> (r: i64)
    requires
        0 <= c < 16,
    ensures
        r == c * UNIT + UNIT / 2,
        0 < r < 16 * UNIT,
{
    assert(0 <= c * UNIT <= 15 * UNIT) by (nonlinear_arith)
        requires
            0 <= c < 16,
            UNIT > 0,
    ;
    c * UNIT + UNIT / 2
}

proof fn lemma_visit_bounds(k: int)
    requires
        0 <= k < 4096,
    ensures
        visit_cell(k).0 < 16 && visit_cell(k).1 < 16 && visit_cell(k).2 < 16,
        in_chunk(visit_cell(k).0, visit_cell(k).1, visit_cell(k).2),
        visit_index(k) == (k / 256) * 256 + (k % 16) * 16 + (k / 16) % 16,
        0 <= visit_index(k) < 4096,
{
    lemma_decompose_visit(k);
    lemma_decompose(k);
}

pub open spec fn visit_pos(k: int) -> (usize, usize, usize) {
    let (x, y, z) = visit_cell(k);
    (x as usize, y as usize, z as usize)
}

/// At step `j` of a traversal of `cells`, `f` was handed the visited cell
/// and answered `go_on`.
pub open spec fn visit_answered<F: Fn((usize, usize, usize), Block) -> bool>(f: F, cells: Seq<Block>, j: int, go_on: bool) -> bool {
    f.ensures((visit_pos(j), cells[visit_index(j)]), go_on)
}

/// A traversal of `cells` visited the first `n` cells of the fixed order:
/// `f` asked to go on at each but the last, and to stop at the last unless
/// every cell was visited.
pub open spec fn visited<F: Fn((usize, usize, usize), Block) -> bool>(f: F, cells: Seq<Block>, n: int) -> bool {
    &&& forall|j: int| 0 <= j < n - 1 ==> #[trigger] visit_answered(f, cells, j, true)
    &&& (n < 4096 ==> visit_answered(f, cells, n - 1, false))
    &&& (n == 4096 ==> visit_answered(f, cells, n - 1, true) || visit_answered(f, cells, n - 1, false))
}

/// At step `j` of a mutating traversal from `start` to `end`, `f` turned the
/// visited block into its new value and asked to go on.
pub open spec fn visit_continued<F: Fn((usize, usize, usize), Block) -> (Block, bool)>(f: F, start: Seq<Block>, end: Seq<Block>, j: int) -> bool {
    f.ensures((visit_pos(j), start[visit_index(j)]), (end[visit_index(j)], true))
}

/// A mutating traversal from `start` to `end` visited the first `n` cells:
/// `f` gave each of them its new block, asked to go on at each but the last,
/// and asked to stop at the last unless every cell was visited; the cells
/// not visited kept their blocks.
pub open spec fn visited_mut<F: Fn((usize, usize, usize), Block) -> (Block, bool)>(f: F, start: Seq<Block>, end: Seq<Block>, n: int) -> bool {
    &&& forall|j: int| 0 <= j < n - 1 ==> visit_continued(f, start, end, j)
    &&& (n < 4096 ==> f.ensures((visit_pos(n - 1), start[visit_index(n - 1)]), (end[visit_index(n - 1)], false)))
    &&& (n == 4096 ==> visit_continued(f, start, end, n - 1)
        || f.ensures((visit_pos(n - 1), start[visit_index(n - 1)]), (end[visit_index(n - 1)], false)))
    &&& forall|j: int| n <= j < 4096 ==> end[visit_index(j)] == start[visit_index(j)]
}

proof fn lemma_visit_step<F: Fn((usize, usize, usize), Block) -> (Block, bool)>(
    f: F,
    start: Seq<Block>,
    before: Seq<Block>,
    after: Seq<Block>,
    k: int,
    nb: Block,
    go_on: bool,
)
    requires
        0 <= k < 4096,
        start.len() == 4096,
        before.len() == 4096,
        after == before.update(visit_index(k), nb),
        forall|j: int| 0 <= j < k ==> visit_continued(f, start, before, j),
        forall|j: int| k <= j < 4096 ==> before[visit_index(j)] == start[visit_index(j)],
        f.ensures((visit_pos(k), before[visit_index(k)]), (nb, go_on)),
    ensures
        forall|j: int| k < j < 4096 ==> after[visit_index(j)] == start[visit_index(j)],
        go_on ==> forall|j: int| 0 <= j <= k ==> visit_continued(f, start, after, j),
        !go_on ==> visited_mut(f, start, after, k + 1),
        go_on && k == 4095 ==> visited_mut(f, start, after, 4096),
{
    lemma_visit_bounds(k);
    let i = visit_index(k);
    assert forall|j: int| 0 <= j < 4096 && j != k implies #[trigger] visit_index(j) != i by {
        lemma_visit_rank(i, j);
        lemma_visit_rank(i, k);
    }
    assert(before[i] == start[i]);
    assert forall|j: int| 0 <= j < k implies #[trigger] visit_continued(f, start, after, j) by {
        assert(visit_continued(f, start, before, j));
        assert(visit_index(j) != i);
    }
    assert forall|j: int| k < j < 4096 implies #[trigger] after[visit_index(j)] == start[visit_index(j)] by {
        assert(visit_index(j) != i);
        assert(before[visit_index(j)] == start[visit_index(j)]);
    }
    assert(after[i] == nb);
}

/// Every cell of `cells` holds what `rule` gives for its local coordinate.
pub open spec fn filled_by(cells: Seq<Block>, rule: spec_fn(int, int, int) -> Block) -> bool {
    forall|x: int, y: int, z: int| in_chunk(x, y, z) ==> cells[#[trigger] local_index(x, y, z)] == rule(x, y, z)
}

/// A traversal whose visitor always goes on and writes `rule` fills the chunk.
pub proof fn lemma_visit_fills<F: Fn((usize, usize, usize), Block) -> (Block, bool)>(
    f: F,
    start: Seq<Block>,
    end: Seq<Block>,
    rule: spec_fn(int, int, int) -> Block,
)
    requires
        start.len() == 4096,
        end.len() == 4096,
        exists|n: int| 0 < n <= 4096 && #[trigger] visited_mut(f, start, end, n),
        forall|pos: (usize, usize, usize), b: Block, r: (Block, bool)|
            pos.0 < 16 && pos.1 < 16 && pos.2 < 16 && #[trigger] f.ensures((pos, b), r) ==> r == (rule(pos.0 as int, pos.1 as int, pos.2 as int), true),
    ensures
        filled_by(end, rule),
{
    let n = choose|n: int| 0 < n <= 4096 && #[trigger] visited_mut(f, start, end, n);
    if n < 4096 {
        assert(f.ensures((visit_pos(n - 1), start[visit_index(n - 1)]), (end[visit_index(n - 1)], false)));
    }
    assert forall|x: int, y: int, z: int| in_chunk(x, y, z) implies end[#[trigger] local_index(x, y, z)] == rule(x, y, z) by {
        let i = local_index(x, y, z);
        let k = y * 256 + x * 16 + z;
        lemma_visit_cell(x, y, z);
        assert(visit_index(k) == i);
        if k < 4095 {
            assert(visit_continued(f, start, end, k));
        } else {
            if !visit_continued(f, start, end, k) {
                assert(f.ensures((visit_pos(k), start[visit_index(k)]), (end[visit_index(k)], false)));
            }
        }
    }
}

/// Geometry uploaded for drawing, derived from a chunk's blocks.
pub struct BufferCache {
    pub position: Vec<Vec3>,
    pub texcoord: Vec<Vec3>,
    pub normal: Vec<Vec3>,
    pub vertex_no: usize,
}

/// A 16x16x16 grid of blocks, with an optional cache of its geometry that is
/// refreshed only by `update_buffer_cache`.
pub struct Chunk {
    blocks: Vec<Block>,
    buffer_cache: Option<BufferCache>,
}

impl View for Chunk {
    type V = Seq<Block>;

    closed spec fn view(&self) -> Seq<Block> {
        self.blocks@
    }
}

impl Chunk {
    pub open spec fn wf(&self) -> bool {
        self@.len() == 4096
    }

    /// The geometry cache holds exactly the geometry of the current blocks.
    pub open spec fn cache_fresh(&self) -> bool {
        self.cache() matches Some(c) && {
            &&& (c.position@, c.texcoord@, c.normal@) == geometry(self@)
            &&& c.vertex_no == 24 * solid_count(self@)
        }
    }

    /// The geometry cache as last computed, if ever.
    pub closed spec fn cache(&self) -> Option<BufferCache> {
        self.buffer_cache
    }

    /// A chunk made of stone only, without cached geometry.
    pub fn new() -> (r: Chunk)
        ensures
            r.wf(),
            forall|i: int| 0 <= i < 4096 ==> r@[i] == Block::Stone,
            r.cache() is None,
    {
        let mut blocks: Vec<Block> = Vec::new();
        let mut i: usize = 0;
        while i < 4096
            invariant
                i <= 4096,
                blocks@.len() == i,
                forall|j: int| 0 <= j < i ==> blocks@[j] == Block::Stone,
            decreases 4096 - i,
        {
            blocks.push(Block::Stone);
            i += 1;
        }
        Chunk { blocks, buffer_cache: None }
    }

    /// The block at local cell `cc`, or `None` when an axis is outside `[0, 16)`.
    pub fn block_at(&self, cc: (i64, i64, i64)) -> (r: Option<Block>)
        requires
            self.wf(),
        ensures
            r == cell_block(self@, cc.0 as int, cc.1 as int, cc.2 as int),
    {
        let (x, y, z) = cc;
        if x < 0 || x > 15 || y < 0 || y > 15 || z < 0 || z > 15 {
            return None;
        }
        let i = (y * 256 + z * 16 + x) as usize;
        Some(self.blocks[i])
    }

    /// The block at the local cell holding the fixed-point position `pos`.
    pub fn block_at_vec(&self, pos: &Vec3) -> (r: Option<Block>)
        requires
            self.wf(),
        ensures
            r == cell_block(self@, floor_cell(*pos).0 as int, floor_cell(*pos).1 as int, floor_cell(*pos).2 as int),
    {
        let cc = pos.floor();
        self.block_at(cc)
    }

    /// A mutable handle on the block at local cell `cc`, or `None` when an
    /// axis is outside `[0, 16)`. Writing through it leaves the geometry
    /// cache as it was.
    pub fn block_at_mut(&mut self, cc: (i64, i64, i64)) -> (r: Option<&mut Block>)
        requires
            old(self).wf(),
        ensures
            in_chunk(cc.0 as int, cc.1 as int, cc.2 as int) <==> r is Some,
            r matches Some(b) ==> {
                let i = local_index(cc.0 as int, cc.1 as int, cc.2 as int);
                &&& *b == old(self)@[i]
                &&& final(self)@ == old(self)@.update(i, *final(b))
                &&& final(self).cache() == old(self).cache()
            },
            r is None ==> *final(self) == *old(self),
    {
        let (x, y, z) = cc;
        if x < 0 || x > 15 || y < 0 || y > 15 || z < 0 || z > 15 {
            return None;
        }
        let i = (y * 256 + z * 16 + x) as usize;
        Some(&mut self.blocks[i])
    }

    /// Calls `f` on every cell in the fixed order (`y` outermost, then `x`,
    /// then `z`) with its local coordinate and block, until `f` returns
    /// `false`.
    pub fn each_block<F: Fn((usize, usize, usize), Block) -> bool>(&self, f: F)
        requires
            self.wf(),
            forall|pos: (usize, usize, usize), b: Block| pos.0 < 16 && pos.1 < 16 && pos.2 < 16 ==> #[trigger] f.requires((pos, b)),
        ensures
            exists|n: int| 0 < n <= 4096 && #[trigger] visited(f, self@, n),
    {
        let mut k: usize = 0;
        while k < 4096
            invariant
                self.wf(),
                k <= 4096,
                forall|pos: (usize, usize, usize), b: Block| pos.0 < 16 && pos.1 < 16 && pos.2 < 16 ==> #[trigger] f.requires((pos, b)),
                forall|j: int| 0 <= j < k ==> #[trigger] visit_answered(f, self@, j, true),
            decreases 4096 - k,
        {
            let (x, y, z) = (k / 16 % 16, k / 256, k % 16);
            proof {
                lemma_visit_bounds(k as int);
            }
            let go_on = f((x, y, z), self.blocks[y * 256 + z * 16 + x]);
            assert(visit_answered(f, self@, k as int, go_on));
            if !go_on {
                assert(visited(f, self@, k + 1));
                return;
            }
            k += 1;
        }
        assert(visited(f, self@, 4096));
    }

    /// Calls `f` on every cell in the fixed order (`y` outermost, then `x`,
    /// then `z`) with its local coordinate and block; `f` returns the cell's
    /// new block and whether to go on. The geometry cache is left as it was.
    pub fn each_block_mut<F: Fn((usize, usize, usize), Block) -> (Block, bool)>(&mut self, f: F)
        requires
            old(self).wf(),
            forall|pos: (usize, usize, usize), b: Block| pos.0 < 16 && pos.1 < 16 && pos.2 < 16 ==> #[trigger] f.requires((pos, b)),
        ensures
            final(self).wf(),
            final(self).cache() == old(self).cache(),
            exists|n: int| 0 < n <= 4096 && #[trigger] visited_mut(f, old(self)@, final(self)@, n),
    {
        let ghost start = self.blocks@;
        let mut k: usize = 0;
        while k < 4096
            invariant
                self.blocks@.len() == 4096,
                start.len() == 4096,
                k <= 4096,
                self.buffer_cache == old(self).buffer_cache,
                start == old(self)@,
                forall|pos: (usize, usize, usize), b: Block| pos.0 < 16 && pos.1 < 16 && pos.2 < 16 ==> #[trigger] f.requires((pos, b)),
                forall|j: int| 0 <= j < k ==> visit_continued(f, start, self.blocks@, j),
                forall|j: int| k <= j < 4096 ==> self.blocks@[visit_index(j)] == start[visit_index(j)],
            decreases 4096 - k,
        {
            let (x, y, z) = (k / 16 % 16, k / 256, k % 16);
            proof {
                lemma_visit_bounds(k as int);
            }
            let i = y * 256 + z * 16 + x;
            let ghost before = self.blocks@;
            let (nb, go_on) = f((x, y, z), self.blocks[i]);
            self.blocks.set(i, nb);
            proof {
                lemma_visit_step(f, start, before, self.blocks@, k as int, nb, go_on);
            }
            if !go_on {
                assert(visited_mut(f, start, self.blocks@, k + 1));
                assert(visited_mut(f, old(self)@, self@, k + 1));
                return;
            }
            k += 1;
        }
        assert(visited_mut(f, start, self.blocks@, 4096));
        assert(visited_mut(f, old(self)@, self@, 4096));
    }

    /// Positions, texture coordinates and normals of a cube for every solid
    /// block, visited in the fixed order; air contributes nothing.
    pub fn generate_buffer_data(&self) -> (r: (Vec<Vec3>, Vec<Vec3>, Vec<Vec3>))
        requires
            self.wf(),
        ensures
            (r.0@, r.1@, r.2@) == geometry(self@),
    {
        let mut vbuf: Vec<Vec3> = Vec::new();
        let mut tbuf: Vec<Vec3> = Vec::new();
        let mut nbuf: Vec<Vec3> = Vec::new();
        let mut y: i64 = 0;
        while y < 16
            invariant
                self.wf(),
                0 <= y <= 16,
                (vbuf@, tbuf@, nbuf@) == geometry_upto(self@, (y * 256) as nat),
            decreases 16 - y,
        {
            let mut x: i64 = 0;
            while x < 16
                invariant
                    self.wf(),
                    0 <= y < 16,
                    0 <= x <= 16,
                    (vbuf@, tbuf@, nbuf@) == geometry_upto(self@, (y * 256 + x * 16) as nat),
                decreases 16 - x,
            {
                let mut z: i64 = 0;
                while z < 16
                    invariant
                        self.wf(),
                        0 <= y < 16,
                        0 <= x < 16,
                        0 <= z <= 16,
                        (vbuf@, tbuf@, nbuf@) == geometry_upto(self@, (y * 256 + x * 16 + z) as nat),
                    decreases 16 - z,
                {
                    proof {
                        lemma_visit_cell(x as int, y as int, z as int);
                    }
                    let block = self.blocks[(y * 256 + z * 16 + x) as usize];
                    if block.blocks() {
                        let (cx, cy, cz) = (cell_center(x), cell_center(y), cell_center(z));
                        let mut cube = make_cube(cx, cy, cz, UNIT / 2);
                        let mut tex = make_cube_texcoord(block.top_texture_id(), block.side_texture_id());
                        let mut nor = make_cube_normal();
                        vbuf.append(&mut cube);
                        tbuf.append(&mut tex);
                        nbuf.append(&mut nor);
                    }
                    z += 1;
                }
                x += 1;
            }
            y += 1;
        }
        (vbuf, tbuf, nbuf)
    }

    /// Recomputes the geometry cache from the current blocks.
    pub fn update_buffer_cache(&mut self)
        requires
            old(self).wf(),
        ensures
            final(self)@ == old(self)@,
            final(self).cache() matches Some(c) && {
                &&& (c.position@, c.texcoord@, c.normal@) == geometry(old(self)@)
                &&& c.vertex_no == 24 * solid_count(old(self)@)
            },
    {
        let (v, t, n) = self.generate_buffer_data();
        proof {
            lemma_geometry_len(self@, 4096);
        }
        let vertex_no = v.len();
        self.buffer_cache = Some(BufferCache { position: v, texcoord: t, normal: n, vertex_no });
    }

    /// The cached geometry, or `None` before the first `update_buffer_cache`.
    pub fn buffer_cache(&self) -> (r: Option<&BufferCache>)
        ensures
            r matches Some(c) ==> self.cache() == Some(*c),
            r is None <==> self.cache() is None,
    {
        match &self.buffer_cache {
            Some(c) => Some(c),
            None => None,
        }
    }
}

} // verus!
