//! One worker moving by one cell.

use std::collections::VecDeque;
use vstd::prelude::*;
use crate::anim::Facing;
use crate::grid;
use crate::grid::{Direction, GridPos};
use crate::tiles::TileSet;
use crate::walk;
use crate::world;
use crate::world::World;

verus! {

/// The position one step away, if it is on the map and passable.
pub fn try_walk(world: &World, pos: GridPos, dir: Direction) -> (next: Option<GridPos>)
    requires
        world.wf(),
        grid::representable(grid::neighbor(pos@, dir)),
    ensures
        match next {
            Some(p) => p@ == grid::neighbor(pos@, dir) && world::passable_at(world.tiles@, p@),
            None => !world::passable_at(world.tiles@, grid::neighbor(pos@, dir)),
        },
{
    let (dx, dy) = dir.delta();
    let nx: i32 = pos.x + dx;
    let ny: i32 = pos.y + dy;
    match world.get(nx, ny) {
        Some(t) => {
            if t.passable() {
                Some(GridPos { x: nx, y: ny })
            } else {
                None
            }
        },
        None => None,
    }
}

/// Turns to `dir` and tries to walk one cell; true if the worker moved. It stays where it is if
/// the terrain or a tile in `occupied` is in the way, and turns all the same. A move frees the
/// old tile and takes the new one.
pub fn step_in_direction(
    world: &World,
    pos: &mut GridPos,
    facing: &mut Facing<i32>,
    dir: Direction,
    occupied: &mut TileSet,
) -> (moved: bool)
    requires
        world.wf(),
        grid::representable(grid::neighbor(old(pos)@, dir)),
    ensures
        moved == walk::enterable(
            world.tiles@,
            old(occupied)@,
            grid::neighbor(old(pos)@, dir),
        ),
        final(facing).prev_yaw == old(facing).prev_yaw,
        final(facing).current_yaw == dir.quarter_turns(),
        moved ==> final(pos)@ == grid::neighbor(old(pos)@, dir) && final(occupied)@ == old(
            occupied,
        )@.remove(old(pos)@).insert(grid::neighbor(old(pos)@, dir)),
        !moved ==> *final(pos) == *old(pos) && final(occupied)@ == old(occupied)@,
{
    facing.current_yaw = dir.yaw();
    let new_pos = match try_walk(world, *pos, dir) {
        Some(p) => p,
        None => {
            return false;
        },
    };
    if occupied.contains(&new_pos) {
        return false;
    }
    occupied.remove(&*pos);
    occupied.insert(new_pos);
    *pos = new_pos;
    true
}

/// Where a plan leads.
pub fn path_destination(start: GridPos, plan: &VecDeque<Direction>) -> (p: GridPos)
    requires
        forall|n: int|
            0 <= n <= plan@.len() ==> grid::representable(
                #[trigger] grid::walk_end(start@, plan@.take(n)),
            ),
    ensures
        p@ == grid::walk_end(start@, plan@),
{
    let mut p = start;
    let mut i: usize = 0;
    while i < plan.len()
        invariant
            i <= plan@.len(),
            p@ == grid::walk_end(start@, plan@.take(i as int)),
            forall|n: int|
                0 <= n <= plan@.len() ==> grid::representable(
                    #[trigger] grid::walk_end(start@, plan@.take(n)),
                ),
        decreases plan@.len() - i,
    {
        let d = plan[i];
        let (dx, dy) = d.delta();
        proof {
            assert(plan@.take(i + 1) =~= plan@.take(i as int).push(d));
            grid::lemma_push(start@, plan@.take(i as int), d);
            assert(grid::representable(grid::walk_end(start@, plan@.take(i + 1))));
        }
        p = GridPos { x: p.x + dx, y: p.y + dy };
        i += 1;
    }
    assert(plan@.take(plan@.len() as int) =~= plan@);
    p
}

} // verus!
