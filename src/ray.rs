use vstd::prelude::*;
use crate::chunk::Block;
use crate::common::{Vec3, TripleFloor, floor_cell, floor_mod, rem, UNIT};
use crate::world::{World, world_block};

verus! {

/// Number of cells a ray visits.
pub const RAY_STEPS: usize = 64;

/// Progress of a grid traversal: the current cell, and for each axis the
/// distance (in fixed-point units) still to travel along that axis before the
/// next cell boundary, which is the pending `t_max` scaled by the absolute
/// direction component.
pub struct RayState {
    pub cell: (int, int, int),
    pub dist: (int, int, int),
}

pub open spec fn step_sign(d: int) -> int {
    if d < 0 {
        -1
    } else {
        1
    }
}

pub open spec fn abs(d: int) -> int {
    if d < 0 {
        -d
    } else {
        d
    }
}

/// Distance from `o` to the first cell boundary in the direction of `d`.
pub open spec fn boundary_dist(o: int, d: int) -> int {
    if d < 0 {
        floor_mod(o, UNIT as int)
    } else {
        UNIT - floor_mod(o, UNIT as int)
    }
}

/// Whether the pending boundary crossing of an axis with distance `na` and
/// direction component `da` comes no later than that of another axis; a zero
/// component never reaches a boundary (its `t_max` is infinite).
pub open spec fn tmax_le(na: int, da: int, nb: int, db: int) -> bool {
    if da == 0 {
        db == 0
    } else if db == 0 {
        true
    } else {
        na * abs(db) <= nb * abs(da)
    }
}

/// Axis (0 for x, 1 for y, 2 for z) that advances next: the one with the
/// smallest `t_max`, ties going to x, then y, then z.
pub open spec fn next_axis(s: RayState, d: Vec3) -> int {
    if tmax_le(s.dist.0, d.x as int, s.dist.1, d.y as int) && tmax_le(s.dist.0, d.x as int, s.dist.2, d.z as int) {
        0
    } else if tmax_le(s.dist.1, d.y as int, s.dist.2, d.z as int) {
        1
    } else {
        2
    }
}

pub open spec fn ray_start(o: Vec3, d: Vec3) -> RayState {
    let c = floor_cell(o);
    RayState {
        cell: (c.0 as int, c.1 as int, c.2 as int),
        dist: (boundary_dist(o.x as int, d.x as int), boundary_dist(o.y as int, d.y as int), boundary_dist(o.z as int, d.z as int)),
    }
}

pub open spec fn ray_advance(s: RayState, d: Vec3) -> RayState {
    let u = UNIT as int;
    let a = next_axis(s, d);
    if a == 0 {
        RayState { cell: (s.cell.0 + step_sign(d.x as int), s.cell.1, s.cell.2), dist: (s.dist.0 + u, s.dist.1, s.dist.2) }
    } else if a == 1 {
        RayState { cell: (s.cell.0, s.cell.1 + step_sign(d.y as int), s.cell.2), dist: (s.dist.0, s.dist.1 + u, s.dist.2) }
    } else {
        RayState { cell: (s.cell.0, s.cell.1, s.cell.2 + step_sign(d.z as int)), dist: (s.dist.0, s.dist.1, s.dist.2 + u) }
    }
}

/// State of the traversal from `o` along `d` after `k` steps.
pub open spec fn ray_state(o: Vec3, d: Vec3, k: nat) -> RayState
    decreases k,
{
    if k == 0 {
        ray_start(o, d)
    } else {
        ray_advance(ray_state(o, d, (k - 1) as nat), d)
    }
}

/// The cells visited by a ray from `o` along `d`, in order.
pub open spec fn ray_cells(o: Vec3, d: Vec3) -> Seq<(i64, i64, i64)> {
    Seq::new(
        RAY_STEPS as nat,
        |k: int| {
            let c = ray_state(o, d, k as nat).cell;
            (c.0 as i64, c.1 as i64, c.2 as i64)
        },
    )
}

/// First visited cell holding a solid block, with that block.
pub open spec fn first_hit(m: Map<(i64, i64, i64), crate::chunk::Chunk>, cells: Seq<(i64, i64, i64)>) -> Option<((i64, i64, i64), Block)>
    decreases cells.len(),
{
    if cells.len() == 0 {
        None
    } else {
        match world_block(m, cells[0]) {
            Some(b) => if b.is_solid() {
                Some((cells[0], b))
            } else {
                first_hit(m, cells.drop_first())
            },
            None => first_hit(m, cells.drop_first()),
        }
    }
}

/// Last air cell visited before the first solid one (`prev` is the last air
/// cell seen so far); `None` when no solid cell is visited.
pub open spec fn last_air_before_hit(
    m: Map<(i64, i64, i64), crate::chunk::Chunk>,
    cells: Seq<(i64, i64, i64)>,
    prev: Option<((i64, i64, i64), Block)>,
) -> Option<((i64, i64, i64), Block)>
    decreases cells.len(),
{
    if cells.len() == 0 {
        None
    } else {
        match world_block(m, cells[0]) {
            Some(b) => if b.is_solid() {
                prev
            } else {
                last_air_before_hit(m, cells.drop_first(), Some((cells[0], b)))
            },
            None => last_air_before_hit(m, cells.drop_first(), prev),
        }
    }
}

/// Cell to place a block in along a ray: the last air cell visited before
/// the first solid one; `None` when the ray starts outside the loaded chunks
/// or meets no solid block.
pub open spec fn place_target(
    m: Map<(i64, i64, i64), crate::chunk::Chunk>,
    cells: Seq<(i64, i64, i64)>,
) -> Option<((i64, i64, i64), Block)> {
    if cells.len() == 0 || world_block(m, cells[0]) is None {
        None
    } else {
        last_air_before_hit(m, cells, None)
    }
}

/// Exact comparison of pending boundary crossings (see `tmax_le`).
fn tmax_le_exec(na: i64, da: i64, nb: i64, db: i64) -> (r: bool)
    requires
        0 <= na <= 100 * UNIT,
        0 <= nb <= 100 * UNIT,
    ensures
        r == tmax_le(na as int, da as int, nb as int, db as int),
{
    if da == 0 {
        db == 0
    } else if db == 0 {
        true
    } else {
        let abs_a: i128 = if da < 0 { -(da as i128) } else { da as i128 };
        let abs_b: i128 = if db < 0 { -(db as i128) } else { db as i128 };
        assert(0 <= na * abs_b <= 100 * UNIT * 0x8000_0000_0000_0000) by (nonlinear_arith)
            requires
                0 <= na <= 100 * UNIT,
                0 <= abs_b <= 0x8000_0000_0000_0000,
        ;
        assert(0 <= nb * abs_a <= 100 * UNIT * 0x8000_0000_0000_0000) by (nonlinear_arith)
            requires
                0 <= nb <= 100 * UNIT,
                0 <= abs_a <= 0x8000_0000_0000_0000,
        ;
        (na as i128) * abs_b <= (nb as i128) * abs_a
    }
}

fn boundary_dist_exec(o: i64, d: i64) -> (r: i64)
    ensures
        r == boundary_dist(o as int, d as int),
        0 <= r <= UNIT,
{
    let m = rem(o, UNIT);
    if d < 0 {
        m
    } else {
        UNIT - m
    }
}

proof fn lemma_ray_bounds(o: Vec3, d: Vec3, k: nat)
    ensures
        0 <= ray_state(o, d, k).dist.0 <= UNIT + k * UNIT,
        0 <= ray_state(o, d, k).dist.1 <= UNIT + k * UNIT,
        0 <= ray_state(o, d, k).dist.2 <= UNIT + k * UNIT,
        abs(ray_state(o, d, k).cell.0 - ray_start(o, d).cell.0) + abs(ray_state(o, d, k).cell.1 - ray_start(o, d).cell.1)
            + abs(ray_state(o, d, k).cell.2 - ray_start(o, d).cell.2) <= k,
    decreases k,
{
    if k > 0 {
        lemma_ray_bounds(o, d, (k - 1) as nat);
    }
}

impl World {
    /// The cells that a ray from `origin` along `direction` passes through,
    /// in order, by incremental grid traversal: starting at the cell holding
    /// `origin`, each step moves to the neighbouring cell across the nearest
    /// boundary.
    pub fn visit_ray(&self, origin: &Vec3, direction: &Vec3) -> (r: Vec<(i64, i64, i64)>)
        ensures
            r@ == ray_cells(*origin, *direction),
    {
        let o = *origin;
        let d = *direction;
        let (mut x, mut y, mut z) = o.floor();
        let (mut nx, mut ny, mut nz) = (boundary_dist_exec(o.x, d.x), boundary_dist_exec(o.y, d.y), boundary_dist_exec(o.z, d.z));
        let sx: i64 = if d.x < 0 { -1 } else { 1 };
        let sy: i64 = if d.y < 0 { -1 } else { 1 };
        let sz: i64 = if d.z < 0 { -1 } else { 1 };
        let mut cells: Vec<(i64, i64, i64)> = Vec::new();
        let mut k: usize = 0;
        proof {
            crate::common::lemma_floor_cell_bounds(o);
        }
        while k < RAY_STEPS
            invariant
                k <= RAY_STEPS,
                sx == step_sign(d.x as int),
                sy == step_sign(d.y as int),
                sz == step_sign(d.z as int),
                ray_state(o, d, k as nat) == (RayState { cell: (x as int, y as int, z as int), dist: (nx as int, ny as int, nz as int) }),
                cells@.len() == k,
                forall|j: int| 0 <= j < k ==> cells@[j] == #[trigger] ray_cells(o, d)[j],
                o == *origin,
                d == *direction,
                crate::common::cell_in_range(ray_start(o, d).cell),
            decreases RAY_STEPS - k,
        {
            cells.push((x, y, z));
            proof {
                lemma_ray_bounds(o, d, k as nat);
                lemma_ray_bounds(o, d, (k + 1) as nat);
            }
            if tmax_le_exec(nx, d.x, ny, d.y) && tmax_le_exec(nx, d.x, nz, d.z) {
                x = x + sx;
                nx = nx + UNIT;
            } else if tmax_le_exec(ny, d.y, nz, d.z) {
                y = y + sy;
                ny = ny + UNIT;
            } else {
                z = z + sz;
                nz = nz + UNIT;
            }
            k += 1;
        }
        assert(cells@ =~= ray_cells(o, d));
        cells
    }

    /// The first cell along the ray that holds a solid block, with the block;
    /// `None` when none of the visited cells does.
    pub fn cast_ray(&self, origin: &Vec3, direction: &Vec3) -> (r: Option<((i64, i64, i64), Block)>)
        requires
            self.wf(),
        ensures
            r == first_hit(self@, ray_cells(*origin, *direction)),
    {
        let cells = self.visit_ray(origin, direction);
        let mut i: usize = 0;
        assert(cells@.subrange(0, cells@.len() as int) =~= cells@);
        while i < cells.len()
            invariant
                self.wf(),
                cells@ == ray_cells(*origin, *direction),
                i <= cells@.len(),
                first_hit(self@, cells@) == first_hit(self@, cells@.subrange(i as int, cells@.len() as int)),
            decreases cells@.len() - i,
        {
            let pos = cells[i];
            proof {
                let rest = cells@.subrange(i as int, cells@.len() as int);
                assert(rest.drop_first() =~= cells@.subrange(i + 1, cells@.len() as int));
                assert(rest[0] == pos);
            }
            match self.block_at(pos) {
                Some(b) => {
                    if b.blocks() {
                        proof {
                            let rest = cells@.subrange(i as int, cells@.len() as int);
                            assert(rest.len() > 0);
                            assert(first_hit(self@, rest) == Some((pos, b)));
                        }
                        return Some((pos, b));
                    }
                },
                None => {},
            }
            i += 1;
        }
        None
    }

    /// The last air cell visited before the first solid one, with its block;
    /// `None` when the ray starts outside the loaded chunks, meets no solid
    /// block, or meets one before any air.
    pub fn cast_ray_previous(&self, origin: &Vec3, direction: &Vec3) -> (r: Option<((i64, i64, i64), Block)>)
        requires
            self.wf(),
        ensures
            r == place_target(self@, ray_cells(*origin, *direction)),
    {
        let cells = self.visit_ray(origin, direction);
        if self.block_at(cells[0]).is_none() {
            return None;
        }
        let mut prev: Option<((i64, i64, i64), Block)> = None;
        let mut i: usize = 0;
        assert(cells@.subrange(0, cells@.len() as int) =~= cells@);
        while i < cells.len()
            invariant
                self.wf(),
                cells@ == ray_cells(*origin, *direction),
                i <= cells@.len(),
                place_target(self@, cells@) == last_air_before_hit(self@, cells@, None),
                last_air_before_hit(self@, cells@, None) == last_air_before_hit(self@, cells@.subrange(i as int, cells@.len() as int), prev),
            decreases cells@.len() - i,
        {
            let pos = cells[i];
            proof {
                let rest = cells@.subrange(i as int, cells@.len() as int);
                assert(rest.drop_first() =~= cells@.subrange(i + 1, cells@.len() as int));
                assert(rest[0] == pos);
            }
            match self.block_at(pos) {
                Some(b) => {
                    if b.blocks() {
                        proof {
                            let rest = cells@.subrange(i as int, cells@.len() as int);
                            assert(rest.len() > 0);
                            assert(last_air_before_hit(self@, rest, prev) == prev);
                        }
                        return prev;
                    }
                    prev = Some((pos, b));
                },
                None => {},
            }
            i += 1;
        }
        None
    }
}

/// A ray's first cell is the one holding its origin, and the cells it visits
/// depend on nothing but the origin and the direction.
pub proof fn lemma_ray_start(o: Vec3, d: Vec3)
    ensures
        ray_cells(o, d)[0] == floor_cell(o),
        forall|o2: Vec3, d2: Vec3| o2 == o && d2 == d ==> ray_cells(o2, d2) == ray_cells(o, d),
{
    crate::common::lemma_floor_cell_bounds(o);
}

/// Manhattan distance between two cells.
pub open spec fn cell_distance(a: (i64, i64, i64), b: (i64, i64, i64)) -> int {
    abs(a.0 - b.0) + abs(a.1 - b.1) + abs(a.2 - b.2)
}

proof fn lemma_first_hit_member(m: Map<(i64, i64, i64), crate::chunk::Chunk>, cells: Seq<(i64, i64, i64)>)
    ensures
        first_hit(m, cells) matches Some((c, b)) ==> exists|k: int| 0 <= k < cells.len() && cells[k] == c,
    decreases cells.len(),
{
    if cells.len() > 0 {
        lemma_first_hit_member(m, cells.drop_first());
        if let Some((c, b)) = first_hit(m, cells.drop_first()) {
            if first_hit(m, cells) == first_hit(m, cells.drop_first()) {
                let k = choose|k: int| 0 <= k < cells.drop_first().len() && cells.drop_first()[k] == c;
                assert(cells[k + 1] == c);
            }
        }
        if let Some((c, b)) = first_hit(m, cells) {
            if cells[0] != c {
                assert(first_hit(m, cells) == first_hit(m, cells.drop_first()));
            }
        }
    }
}

/// A block found by `cast_ray` lies within the step budget of the cell
/// holding the origin: at most `RAY_STEPS - 1` unit steps away.
pub proof fn lemma_cast_ray_within_budget(w: &World, o: Vec3, d: Vec3)
    ensures
        first_hit(w@, ray_cells(o, d)) matches Some((c, b)) ==> cell_distance(c, floor_cell(o)) <= RAY_STEPS - 1,
{
    let cells = ray_cells(o, d);
    lemma_first_hit_member(w@, cells);
    if let Some((c, b)) = first_hit(w@, cells) {
        let k = choose|k: int| 0 <= k < cells.len() && cells[k] == c;
        lemma_ray_bounds(o, d, k as nat);
        crate::common::lemma_floor_cell_bounds(o);
        lemma_ray_cell_fits(o, d, k as nat);
    }
}

proof fn lemma_ray_cell_fits(o: Vec3, d: Vec3, k: nat)
    requires
        k < RAY_STEPS,
    ensures
        i64::MIN <= ray_state(o, d, k).cell.0 <= i64::MAX,
        i64::MIN <= ray_state(o, d, k).cell.1 <= i64::MAX,
        i64::MIN <= ray_state(o, d, k).cell.2 <= i64::MAX,
{
    lemma_ray_bounds(o, d, k);
    crate::common::lemma_floor_cell_bounds(o);
}

} // verus!