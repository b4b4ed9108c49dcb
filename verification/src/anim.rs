//! Pairs of states, at the previous tick and at the latest, between which the view interpolates.
//! The number types are those of the view.

use vstd::prelude::*;
use crate::grid::{Cell, GridPos, GRID_H, GRID_W};

verus! {

/// A point in the view's space.
#[derive(Copy, Clone, Debug, PartialEq, Eq)]
pub struct Point<C> {
    pub x: C,
    pub y: C,
    pub z: C,
}

/// Where a worker was drawn at the previous tick and at the latest.
pub struct MoveAnim<C> {
    pub prev: Point<C>,
    pub current: Point<C>,
}

/// Which way a worker faced at the previous tick and at the latest.
pub struct Facing<Y> {
    pub prev_yaw: Y,
    pub current_yaw: Y,
}

impl<C: Copy> MoveAnim<C> {
    /// The pair with the latest state in both places.
    pub open spec fn snapshotted(self) -> Self {
        MoveAnim { prev: self.current, current: self.current }
    }

    /// The pair with the latest state moved to the given place, at the same height.
    pub open spec fn synced(self, x: C, z: C) -> Self {
        MoveAnim { prev: self.prev, current: Point { x, y: self.current.y, z } }
    }

    /// Run before a tick: what was the latest state is now the previous one.
    pub fn snapshot(&mut self)
        ensures
            *final(self) == old(self).snapshotted(),
    {
        self.prev = self.current;
    }

    /// Run after a tick: the latest state follows the worker's cell.
    pub fn sync(&mut self, x: C, z: C)
        ensures
            *final(self) == old(self).synced(x, z),
    {
        let y = self.current.y;
        self.current = Point { x, y, z };
    }
}

impl<Y: Copy> Facing<Y> {
    /// The pair with the latest yaw in both places.
    pub open spec fn snapshotted(self) -> Self {
        Facing { prev_yaw: self.current_yaw, current_yaw: self.current_yaw }
    }

    /// The pair with a new latest yaw.
    pub open spec fn turned(self, yaw: Y) -> Self {
        Facing { prev_yaw: self.prev_yaw, current_yaw: yaw }
    }

    /// Run before a tick: what was the latest yaw is now the previous one.
    pub fn snapshot(&mut self)
        ensures
            *final(self) == old(self).snapshotted(),
    {
        self.prev_yaw = self.current_yaw;
    }
}

/// A worker that stays on its cell over a tick is drawn still: both states are the same, so
/// nothing is interpolated and nothing jumps back.
pub proof fn law_no_pop_back<C: Copy>(anim: MoveAnim<C>, x: C, z: C)
    requires
        anim.current.x == x,
        anim.current.z == z,
    ensures
        anim.snapshotted().synced(x, z).prev == anim.current,
        anim.snapshotted().synced(x, z).current == anim.current,
{
}

/// A worker that moves over a tick is drawn from where it was to where it is.
pub proof fn law_motion_spans_one_tick<C: Copy>(anim: MoveAnim<C>, x: C, z: C)
    ensures
        anim.snapshotted().synced(x, z).prev == anim.current,
        anim.snapshotted().synced(x, z).current == (Point { x, y: anim.current.y, z }),
{
}

/// A worker is drawn turning from the way it faced before a tick to the way it faces after it; one
/// that does not turn is drawn still.
pub proof fn law_turns_span_one_tick<Y: Copy>(facing: Facing<Y>, yaw: Y)
    ensures
        facing.snapshotted().turned(yaw).prev_yaw == facing.current_yaw,
        facing.snapshotted().turned(yaw).current_yaw == yaw,
        facing.snapshotted().prev_yaw == facing.current_yaw,
        facing.snapshotted().current_yaw == facing.current_yaw,
{
}

/// The least turn, in quarter turns, that leads from one yaw to another: at most half a turn
/// either way, and a turn of just a half the way it was asked for.
pub fn shortest_turn(prev: i32, current: i32) -> (turn: i64)
    ensures
        -2 <= turn <= 2,
        (current - prev - turn) % 4 == 0,
        -2 <= current - prev <= 2 ==> turn == current - prev,
        current - prev > 2 ==> turn > -2,
        current - prev < -2 ==> turn < 2,
{
    let diff: i64 = current as i64 - prev as i64;
    if diff > 2 {
        let over: i64 = diff % 4;
        if over > 2 {
            over - 4
        } else {
            over
        }
    } else if diff < -2 {
        let under: i64 = (-diff) % 4;
        if under > 2 {
            4 - under
        } else {
            -under
        }
    } else {
        diff
    }
}

/// Where a cell lies in the view's ground plane, in half cells from the centre of the map.
pub open spec fn ground_of(c: Cell) -> (int, int) {
    (2 * c.0 - (GRID_W - 1), 2 * c.1 - (GRID_H - 1))
}

/// Cells lie one cell apart, columns to the right and rows to the front, and opposite cells of the
/// map lie opposite each other about the centre.
pub proof fn law_ground_is_centred(x: int, y: int)
    ensures
        ground_of((x + 1, y)) == (ground_of((x, y)).0 + 2, ground_of((x, y)).1),
        ground_of((x, y + 1)) == (ground_of((x, y)).0, ground_of((x, y)).1 + 2),
        ground_of((x, y)) == (-ground_of((19 - x, 14 - y)).0, -ground_of((19 - x, 14 - y)).1),
{
}

/// Where a cell lies in the view's ground plane, in half cells from the centre of the map.
pub fn grid_to_world(pos: GridPos) -> (p: (i64, i64))
    ensures
        p.0 == 2 * pos.x - (GRID_W - 1),
        p.1 == 2 * pos.y - (GRID_H - 1),
        (p.0 as int, p.1 as int) == ground_of(pos@),
{
    (2 * (pos.x as i64) - (GRID_W as i64 - 1), 2 * (pos.y as i64) - (GRID_H as i64 - 1))
}

} // verus!
