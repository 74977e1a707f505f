use vstd::prelude::*;
use crate::chunk::Block;
use crate::common::{Vec3, TripleFloor, floor_cell, floor_div, div, UNIT};
use crate::world::{World, world_block};

verus! {

/// Largest magnitude of a position coordinate or displacement component that
/// the resolver accepts.
pub const COORD_LIMIT: i64 = 0x1000_0000_0000_0000;

/// Gap left between an actor moving in the positive direction and the cell it
/// is stopped short of: a ten-thousandth of a block.
pub const SKIN: i64 = 100;

/// How far below the actor the ground is probed: a thousandth of a block.
pub const GROUND_PROBE: i64 = 1000;

/// Downward acceleration, in blocks per second squared.
pub const GRAVITY: i64 = 30;

/// Upward speed given by a jump, in fixed-point blocks per second.
pub const JUMP_SPEED: i64 = 8 * UNIT;

#[derive(Clone, Copy, Debug, PartialEq, Eq, Structural)]
pub enum Axis {
    X,
    Y,
    Z,
}

pub open spec fn axis_get(p: Vec3, axis: Axis) -> int {
    match axis {
        Axis::X => p.x as int,
        Axis::Y => p.y as int,
        Axis::Z => p.z as int,
    }
}

pub open spec fn with_axis(p: Vec3, axis: Axis, v: int) -> Vec3 {
    match axis {
        Axis::X => Vec3 { x: v as i64, ..p },
        Axis::Y => Vec3 { y: v as i64, ..p },
        Axis::Z => Vec3 { z: v as i64, ..p },
    }
}

/// An actor can stand in the cell holding `p`: it holds air or is not loaded.
pub open spec fn passable(m: Map<(i64, i64, i64), crate::chunk::Chunk>, p: Vec3) -> bool {
    match world_block(m, floor_cell(p)) {
        Some(b) => !b.is_solid(),
        None => true,
    }
}

/// Displacement applied along `axis` for an intended `delta`: all of it when
/// the cell reached is passable, else just enough to reach the near edge of
/// the current cell (short of it by `SKIN` when moving in the positive
/// direction).
pub open spec fn resolved_delta(m: Map<(i64, i64, i64), crate::chunk::Chunk>, p: Vec3, axis: Axis, delta: int) -> int {
    let a = axis_get(p, axis);
    let u = UNIT as int;
    if passable(m, with_axis(p, axis, a + delta)) {
        delta
    } else if delta < 0 {
        floor_div(a, u) * u - a
    } else {
        floor_div(a, u) * u - a + u - SKIN
    }
}

pub open spec fn move_along(m: Map<(i64, i64, i64), crate::chunk::Chunk>, p: Vec3, axis: Axis, delta: int) -> Vec3 {
    with_axis(p, axis, axis_get(p, axis) + resolved_delta(m, p, axis, delta))
}

/// Position after one tick: the horizontal axis with the larger intended
/// displacement first (z first on a tie), then the other, then the vertical.
pub open spec fn resolved_move(m: Map<(i64, i64, i64), crate::chunk::Chunk>, p: Vec3, d: Vec3) -> Vec3 {
    let p1 = if abs_int(d.x as int) > abs_int(d.z as int) {
        move_along(m, move_along(m, p, Axis::X, d.x as int), Axis::Z, d.z as int)
    } else {
        move_along(m, move_along(m, p, Axis::Z, d.z as int), Axis::X, d.x as int)
    };
    move_along(m, p1, Axis::Y, d.y as int)
}

pub open spec fn abs_int(v: int) -> int {
    if v < 0 {
        -v
    } else {
        v
    }
}

pub open spec fn within_limit(v: int) -> bool {
    -COORD_LIMIT <= v <= COORD_LIMIT
}

fn get_axis(p: &Vec3, axis: Axis) -> (r: i64)
    ensures
        r == axis_get(*p, axis),
{
    match axis {
        Axis::X => p.x,
        Axis::Y => p.y,
        Axis::Z => p.z,
    }
}

fn set_axis(p: &mut Vec3, axis: Axis, v: i64)
    ensures
        *final(p) == with_axis(*old(p), axis, v as int),
{
    match axis {
        Axis::X => p.x = v,
        Axis::Y => p.y = v,
        Axis::Z => p.z = v,
    }
}

/// The displacement actually applied along `axis` when the actor at `pos`
/// intends to move by `delta` along it.
pub fn resolve_axis(world: &World, pos: &Vec3, axis: Axis, delta: i64) -> (r: i64)
    requires
        world.wf(),
        within_limit(axis_get(*pos, axis)),
        within_limit(delta as int),
    ensures
        r == resolved_delta(world@, *pos, axis, delta as int),
        -2 * COORD_LIMIT <= axis_get(*pos, axis) + r <= 2 * COORD_LIMIT,
{
    let a = get_axis(pos, axis);
    let mut target = *pos;
    set_axis(&mut target, axis, a + delta);
    let passable = match world.block_at_vec(&target) {
        Some(b) => !b.blocks(),
        None => true,
    };
    if passable {
        delta
    } else {
        let c = div(a, UNIT);
        proof {
            vstd::arithmetic::div_mod::lemma_fundamental_div_mod(a as int, UNIT as int);
            vstd::arithmetic::div_mod::lemma_mod_bound(a as int, UNIT as int);
        }
        let base = c * UNIT - a;
        if delta < 0 {
            base
        } else {
            base + UNIT - SKIN
        }
    }
}

proof fn lemma_move_keeps_cell(m: Map<(i64, i64, i64), crate::chunk::Chunk>, p: Vec3, axis: Axis, delta: int)
    requires
        within_limit(axis_get(p, axis)),
        within_limit(delta),
    ensures
        passable(m, p) ==> passable(m, move_along(m, p, axis, delta)),
{
    let a = axis_get(p, axis);
    let u = UNIT as int;
    if !passable(m, with_axis(p, axis, a + delta)) {
        let q = floor_div(a, u);
        vstd::arithmetic::div_mod::lemma_fundamental_div_mod(a, u);
        vstd::arithmetic::div_mod::lemma_mod_bound(a, u);
        let r = if delta < 0 { 0 } else { u - SKIN };
        vstd::arithmetic::div_mod::lemma_fundamental_div_mod_converse(q * u + r, u, q, r);
        assert(floor_cell(move_along(m, p, axis, delta)) == floor_cell(p));
    }
}

/// An actor that starts a move in a cell it can stand in ends it in one:
/// along one axis, a move is either entirely into a passable cell or stops
/// inside the cell it started from.
pub proof fn lemma_resolve_axis_never_enters_solid(w: &World, p: Vec3, axis: Axis, delta: int)
    requires
        within_limit(axis_get(p, axis)),
        within_limit(delta),
        passable(w@, p),
    ensures
        passable(w@, move_along(w@, p, axis, delta)),
{
    lemma_move_keeps_cell(w@, p, axis, delta);
}

/// Moves the actor at `pos` by `delta`, one axis at a time, stopping each
/// axis short of solid blocks.
pub fn resolve_move(world: &World, pos: &Vec3, delta: &Vec3) -> (r: Vec3)
    requires
        world.wf(),
        within_limit(pos.x as int),
        within_limit(pos.y as int),
        within_limit(pos.z as int),
        within_limit(delta.x as int),
        within_limit(delta.y as int),
        within_limit(delta.z as int),
    ensures
        r == resolved_move(world@, *pos, *delta),
{
    let mut p = *pos;
    let ax = if delta.x < 0 { -delta.x } else { delta.x };
    let az = if delta.z < 0 { -delta.z } else { delta.z };
    if ax > az {
        let dx = resolve_axis(world, &p, Axis::X, delta.x);
        p.x = p.x + dx;
        let dz = resolve_axis(world, &p, Axis::Z, delta.z);
        p.z = p.z + dz;
    } else {
        let dz = resolve_axis(world, &p, Axis::Z, delta.z);
        p.z = p.z + dz;
        let dx = resolve_axis(world, &p, Axis::X, delta.x);
        p.x = p.x + dx;
    }
    let dy = resolve_axis(world, &p, Axis::Y, delta.y);
    p.y = p.y + dy;
    p
}

/// An actor that starts a tick in a cell it can stand in is never moved into
/// a solid block, whatever the intended displacement.
pub proof fn lemma_resolve_move_never_enters_solid(w: &World, p: Vec3, d: Vec3)
    requires
        within_limit(p.x as int),
        within_limit(p.y as int),
        within_limit(p.z as int),
        within_limit(d.x as int),
        within_limit(d.y as int),
        within_limit(d.z as int),
        passable(w@, p),
    ensures
        passable(w@, resolved_move(w@, p, d)),
{
    let m = w@;
    if abs_int(d.x as int) > abs_int(d.z as int) {
        let p1 = move_along(m, p, Axis::X, d.x as int);
        lemma_move_keeps_cell(m, p, Axis::X, d.x as int);
        lemma_move_keeps_cell(m, p1, Axis::Z, d.z as int);
        lemma_move_keeps_cell(m, move_along(m, p1, Axis::Z, d.z as int), Axis::Y, d.y as int);
    } else {
        let p1 = move_along(m, p, Axis::Z, d.z as int);
        lemma_move_keeps_cell(m, p, Axis::Z, d.z as int);
        lemma_move_keeps_cell(m, p1, Axis::X, d.x as int);
        lemma_move_keeps_cell(m, move_along(m, p1, Axis::X, d.x as int), Axis::Y, d.y as int);
    }
}

/// Whether the actor at `pos` stands on something: the cell just below it
/// holds anything but air (an unloaded cell counts as ground).
pub fn is_grounded(world: &World, pos: &Vec3) -> (r: bool)
    requires
        world.wf(),
        pos.y >= i64::MIN + GROUND_PROBE,
    ensures
        r == (world_block(world@, floor_cell(Vec3 { y: (pos.y - GROUND_PROBE) as i64, ..*pos })) != Some(Block::Air)),
{
    let below = Vec3 { x: pos.x, y: pos.y - GROUND_PROBE, z: pos.z };
    match world.block_at_vec(&below) {
        Some(Block::Air) => false,
        _ => true,
    }
}

/// Vertical speed after a tick of `dt` (fixed-point seconds): gravity pulls
/// it down, standing on ground stops it, and a jump from the ground sets it
/// to `JUMP_SPEED`.
pub fn vertical_velocity(vel_y: i64, dt: i64, grounded: bool, jump: bool) -> (r: i64)
    requires
        within_limit(vel_y as int),
        0 <= dt <= COORD_LIMIT / GRAVITY,
    ensures
        r == (if grounded && jump {
            JUMP_SPEED as int
        } else if grounded {
            0
        } else {
            vel_y - GRAVITY * dt
        }),
{
    let mut v = vel_y - GRAVITY * dt;
    if grounded {
        v = 0;
    }
    if jump && grounded {
        v = JUMP_SPEED;
    }
    v
}

} // verus!
