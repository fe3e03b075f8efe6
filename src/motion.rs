use vstd::prelude::*;

use crate::geometry::Position;

verus! {

/// Simulation ticks per second: one tick is the fixed time step.
pub const TICKS_PER_SECOND: i64 = 60;

/// The base speed, in pixels per second.
pub const BASE_SPEED: i64 = 500;

/// Velocities are counted in hundredths of the base speed.
pub const VELOCITY_SCALE: i64 = 100;

/// Positions and extents are counted in sub-pixels; this many make a pixel.
pub const SUBPIXELS_PER_PIXEL: i64 = 60;

/// Sub-pixels covered in one tick per unit of velocity:
/// `BASE_SPEED * SUBPIXELS_PER_PIXEL / (TICKS_PER_SECOND * VELOCITY_SCALE)`.
pub const STEP_PER_VELOCITY_UNIT: i64 = 5;

/// How far beyond the window's edge an auto-despawn entity may go, in sub-pixels.
pub const MARGIN: i64 = 300 * SUBPIXELS_PER_PIXEL;

/// Velocity in hundredths of the base speed, per axis.
#[derive(Clone, Copy, Debug, PartialEq, Eq, Structural)]
pub struct Velocity {
    pub x: i64,
    pub y: i64,
}

/// Marks an entity that moves; `auto_despawn` makes it leave the world once
/// it is out of the play area.
#[derive(Clone, Copy, Debug, PartialEq, Eq, Structural)]
pub struct Movable {
    pub auto_despawn: bool,
}

/// The window's width and height, in sub-pixels.
#[derive(Clone, Copy, Debug, PartialEq, Eq, Structural)]
pub struct WinSize {
    pub w: i64,
    pub h: i64,
}

/// The largest window extent handled, in sub-pixels.
pub const MAX_WINDOW: i64 = 1_000_000_000_000;

impl WinSize {
    pub open spec fn wf(self) -> bool {
        0 < self.w <= MAX_WINDOW && 0 < self.h <= MAX_WINDOW
    }
}

/// Displacement in one tick of a velocity component `v`, in sub-pixels:
/// `v * time_step * base_speed`, with `time_step` one tick.
pub open spec fn displacement(v: int) -> int {
    v * BASE_SPEED * SUBPIXELS_PER_PIXEL / (TICKS_PER_SECOND * VELOCITY_SCALE)
}

pub proof fn lemma_displacement(v: int)
    ensures
        displacement(v) == v * STEP_PER_VELOCITY_UNIT,
{
    assert(v * BASE_SPEED * SUBPIXELS_PER_PIXEL == (v * STEP_PER_VELOCITY_UNIT) * (TICKS_PER_SECOND
        * VELOCITY_SCALE)) by (nonlinear_arith);
    vstd::arithmetic::div_mod::lemma_div_multiples_vanish(
        v * STEP_PER_VELOCITY_UNIT,
        TICKS_PER_SECOND * VELOCITY_SCALE,
    );
}

/// The position fits after one more tick at velocity `v`.
pub open spec fn can_advance(p: Position, v: Velocity) -> bool {
    &&& i64::MIN <= p.x + displacement(v.x as int) <= i64::MAX
    &&& i64::MIN <= p.y + displacement(v.y as int) <= i64::MAX
}

/// The position one tick later at velocity `v`.
pub open spec fn advanced(p: Position, v: Velocity) -> Position {
    Position {
        x: (p.x + displacement(v.x as int)) as i64,
        y: (p.y + displacement(v.y as int)) as i64,
    }
}

/// Beyond half the window plus the margin, on either axis, in either direction.
pub open spec fn out_of_play_area(p: Position, win: WinSize) -> bool {
    ||| 2 * p.y > win.h + 2 * MARGIN
    ||| 2 * p.y < -win.h - 2 * MARGIN
    ||| 2 * p.x > win.w + 2 * MARGIN
    ||| 2 * p.x < -win.w - 2 * MARGIN
}

/// Moves a position by one tick at velocity `v`.
pub fn advance(p: Position, v: Velocity) -> (r: Position)
    requires
        can_advance(p, v),
    ensures
        r == advanced(p, v),
{
    proof {
        lemma_displacement(v.x as int);
        lemma_displacement(v.y as int);
    }
    let dx = v.x as i128 * STEP_PER_VELOCITY_UNIT as i128;
    let dy = v.y as i128 * STEP_PER_VELOCITY_UNIT as i128;
    Position { x: (p.x as i128 + dx) as i64, y: (p.y as i128 + dy) as i64 }
}

/// Whether a position lies beyond the play area and its margin.
pub fn is_out_of_play_area(p: Position, win: WinSize) -> (r: bool)
    ensures
        r == out_of_play_area(p, win),
{
    let (x, y) = (2 * p.x as i128, 2 * p.y as i128);
    let (w, h, m) = (win.w as i128, win.h as i128, 2 * MARGIN as i128);
    y > h + m || y < -h - m || x > w + m || x < -w - m
}

/// One tick of one entity: moves it, and says whether it is to be despawned
/// (auto-despawn and out of the play area).
pub fn move_entity(pos: &mut Position, velocity: Velocity, movable: Movable, win: WinSize) -> (despawn: bool)
    requires
        can_advance(*old(pos), velocity),
    ensures
        *final(pos) == advanced(*old(pos), velocity),
        despawn == (movable.auto_despawn && out_of_play_area(*final(pos), win)),
{
    *pos = advance(*pos, velocity);
    movable.auto_despawn && is_out_of_play_area(*pos, win)
}


/// The position after `n` ticks at a constant velocity.
pub open spec fn advanced_n(p: Position, v: Velocity, n: nat) -> Position
    decreases n,
{
    if n == 0 {
        p
    } else {
        advanced(advanced_n(p, v, (n - 1) as nat), v)
    }
}

/// After `n` ticks at a constant velocity the position has moved by `n` times
/// the displacement of one tick, on each axis (as long as it fits).
pub proof fn lemma_advanced_n(p: Position, v: Velocity, n: nat)
    requires
        forall|k: nat|
            k <= n ==> i64::MIN <= #[trigger] (p.x + k * displacement(v.x as int)) <= i64::MAX
                && i64::MIN <= p.y + k * displacement(v.y as int) <= i64::MAX,
    ensures
        advanced_n(p, v, n).x == p.x + n * displacement(v.x as int),
        advanced_n(p, v, n).y == p.y + n * displacement(v.y as int),
    decreases n,
{
    if n > 0 {
        let k = (n - 1) as nat;
        assert(i64::MIN <= p.x + k * displacement(v.x as int) <= i64::MAX);
        assert(i64::MIN <= p.x + n * displacement(v.x as int) <= i64::MAX);
        lemma_advanced_n(p, v, k);
        assert(p.x + k * displacement(v.x as int) + displacement(v.x as int) == p.x + n
            * displacement(v.x as int)) by (nonlinear_arith)
            requires
                n == k + 1,
        ;
        assert(p.y + k * displacement(v.y as int) + displacement(v.y as int) == p.y + n
            * displacement(v.y as int)) by (nonlinear_arith)
            requires
                n == k + 1,
        ;
    }
}

} // verus!
