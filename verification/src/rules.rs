//! The rules of one tick, as functions on mathematical states.
//!
//! Workers act one after the other. What they see of each other during a tick is in a
//! [`TickView`]: the tiles on which something was picked up, the resource tiles that are claimed,
//! the tiles that are occupied, the stock of the bases, and the changes to the map ordered so far.

use vstd::prelude::*;
use crate::grid;
use crate::grid::{Cell, Direction, GridPos};
use crate::inventory;
use crate::inventory::{Inventory, ResourceKind};
use crate::program;
use crate::program::{Action, Target};
use crate::walk;
use crate::world::Terrain;

verus! {

/// A worker whose intended moves have been blocked this many ticks in a row gives up.
pub const MAX_BUMPS: u32 = 10;

/// A collectible item on the map.
#[derive(Copy, Clone, Debug, PartialEq, Eq, Structural)]
pub struct ResourceNode {
    pub kind: ResourceKind,
    pub pos: GridPos,
}

/// A change to the map, to be made once the tick is over.
#[derive(Copy, Clone, Debug, PartialEq, Eq, Structural)]
pub enum Command {
    /// Take the resource node at a place of the list off the map.
    DespawnResource(usize),
    /// Put a new resource node on the map.
    SpawnResource(ResourceNode),
    /// Take the worker at a place of the list off the map.
    DespawnWorker(usize),
}

/// What does not change during a tick.
#[verifier::ext_equal]
pub ghost struct SceneView {
    pub tiles: Seq<Terrain>,
    pub resources: Seq<ResourceNode>,
    pub bases: Seq<GridPos>,
}

/// What workers see of each other during a tick.
#[verifier::ext_equal]
pub ghost struct TickView {
    pub picked: Set<Cell>,
    pub claims: Set<Cell>,
    pub occupied: Set<Cell>,
    pub stock: Seq<Seq<int>>,
    pub commands: Seq<Command>,
}

/// A worker.
#[verifier::ext_equal]
pub ghost struct WorkerView {
    pub pos: GridPos,
    pub prev_yaw: int,
    pub yaw: int,
    pub instructions: Seq<Action>,
    pub pc: int,
    pub carried: Seq<ResourceKind>,
    pub plan: Seq<Direction>,
    pub reserved: Option<GridPos>,
    pub bumps: Option<int>,
}

/// The states after an action, and what is to be made of it.
#[verifier::ext_equal]
pub ghost struct Outcome {
    pub tick: TickView,
    pub worker: WorkerView,
    /// The worker changed its cell.
    pub moved: bool,
    /// A move that the worker intended was foiled.
    pub blocked: bool,
    /// The instruction is done; the next one is to run.
    pub done: bool,
}

/// True if `w` is the first of the open walks from `start` to a cell in `targets`.
pub open spec fn best_walk(
    tiles: Seq<Terrain>,
    blocked: Set<Cell>,
    start: Cell,
    targets: Set<Cell>,
    w: Seq<Direction>,
) -> bool {
    &&& walk::open_walk(tiles, blocked, start, w)
    &&& targets.contains(grid::walk_end(start, w))
    &&& forall|v: Seq<Direction>| #[trigger]
        walk::open_walk(tiles, blocked, start, v) && targets.contains(grid::walk_end(start, v))
            ==> grid::walk_rank(w) <= grid::walk_rank(v)
}

/// The first of the open walks from `start` to a cell in `targets`; empty if there is none.
pub open spec fn best_plan(
    tiles: Seq<Terrain>,
    blocked: Set<Cell>,
    start: Cell,
    targets: Set<Cell>,
) -> Seq<Direction> {
    if exists|w: Seq<Direction>| best_walk(tiles, blocked, start, targets, w) {
        choose|w: Seq<Direction>| best_walk(tiles, blocked, start, targets, w)
    } else {
        Seq::empty()
    }
}

/// The cells that a target stands for: tiles with a resource of the kind that nobody has
/// claimed, or the bases.
pub open spec fn target_cells(scene: SceneView, claims: Set<Cell>, target: Target) -> Set<Cell> {
    match target {
        Target::Resource(kind) => Set::new(
            |c: Cell|
                !claims.contains(c) && exists|i: int|
                    0 <= i < scene.resources.len() && (#[trigger] scene.resources[i]).kind == kind
                        && scene.resources[i].pos@ == c,
        ),
        Target::Base => Set::new(
            |c: Cell| exists|i: int| 0 <= i < scene.bases.len() && (#[trigger] scene.bases[i])@ == c,
        ),
    }
}

/// The plan of a worker that goes to a target.
pub open spec fn plan_for(
    scene: SceneView,
    claims: Set<Cell>,
    blocked: Set<Cell>,
    pos: GridPos,
    target: Target,
) -> Seq<Direction> {
    best_plan(scene.tiles, blocked, pos@, target_cells(scene, claims, target))
}

/// The claims without the one that a worker holds.
pub open spec fn released(claims: Set<Cell>, reserved: Option<GridPos>) -> Set<Cell> {
    match reserved {
        Some(p) => claims.remove(p@),
        None => claims,
    }
}

/// One step in a direction: the worker turns; it moves unless terrain or another worker is in
/// the way.
pub open spec fn stepped(
    scene: SceneView,
    t: TickView,
    w: WorkerView,
    d: Direction,
) -> (TickView, WorkerView, bool) {
    let dest = grid::neighbor(w.pos@, d);
    let turned = WorkerView { yaw: d.quarter_turns(), ..w };
    if walk::enterable(scene.tiles, t.occupied, dest) {
        (
            TickView { occupied: t.occupied.remove(w.pos@).insert(dest), ..t },
            WorkerView { pos: walk::pos_of(dest), ..turned },
            true,
        )
    } else {
        (t, turned, false)
    }
}

/// The direction at a place of the fixed order.
pub open spec fn direction_at(r: nat) -> Direction {
    if r == 0 {
        Direction::North
    } else if r == 1 {
        Direction::South
    } else if r == 2 {
        Direction::East
    } else {
        Direction::West
    }
}

/// Tries the directions from place `r` on, but for `bumped`, until a step succeeds.
pub open spec fn sidestepped(
    scene: SceneView,
    t: TickView,
    w: WorkerView,
    bumped: Direction,
    r: nat,
) -> (TickView, WorkerView, bool)
    decreases 4 - r,
{
    if r >= 4 {
        (t, w, false)
    } else if direction_at(r) == bumped {
        sidestepped(scene, t, w, bumped, r + 1)
    } else {
        let (t1, w1, moved) = stepped(scene, t, w, direction_at(r));
        if moved {
            (t1, w1, true)
        } else {
            sidestepped(scene, t1, w1, bumped, r + 1)
        }
    }
}

/// True if a pickup at `pos` takes the node.
pub open spec fn matches_pickup(
    node: ResourceNode,
    pos: GridPos,
    filter: Option<ResourceKind>,
) -> bool {
    node.pos == pos && (filter is None || filter == Some(node.kind))
}

/// The first node from place `i` on that a pickup at `pos` takes.
pub open spec fn pickup_from(
    resources: Seq<ResourceNode>,
    pos: GridPos,
    filter: Option<ResourceKind>,
    i: int,
) -> Option<int>
    decreases resources.len() - i,
{
    if i < 0 || i >= resources.len() {
        None
    } else if matches_pickup(resources[i], pos, filter) {
        Some(i)
    } else {
        pickup_from(resources, pos, filter, i + 1)
    }
}

/// The queue after `kind` has been picked up.
pub open spec fn queue_with(carried: Seq<ResourceKind>, kind: ResourceKind) -> Seq<ResourceKind> {
    if carried.len() < Inventory::CAPACITY {
        carried.push(kind)
    } else {
        carried.push(kind).drop_first()
    }
}

/// The changes to the map when the node at place `i` is picked up: the node goes, and what no
/// longer fits in the queue comes back onto the tile.
pub open spec fn pickup_commands(
    carried: Seq<ResourceKind>,
    pos: GridPos,
    i: int,
) -> Seq<Command> {
    let taken = seq![Command::DespawnResource(i as usize)];
    if carried.len() < Inventory::CAPACITY {
        taken
    } else {
        taken.push(Command::SpawnResource(ResourceNode { kind: carried[0], pos }))
    }
}

/// Picking up: the first worker on a tile takes the first node there that fits; nobody else
/// takes anything from that tile during the tick. A reservation of this very tile is dropped,
/// while the claim stays until the tick is over.
pub open spec fn after_pickup(
    scene: SceneView,
    t: TickView,
    w: WorkerView,
    filter: Option<ResourceKind>,
) -> Outcome {
    let kept = if w.reserved == Some(w.pos) {
        None
    } else {
        w.reserved
    };
    let locked = TickView { picked: t.picked.insert(w.pos@), ..t };
    let hit = if t.picked.contains(w.pos@) {
        None
    } else {
        pickup_from(scene.resources, w.pos, filter, 0)
    };
    match hit {
        Some(i) => Outcome {
            tick: TickView { commands: t.commands + pickup_commands(w.carried, w.pos, i), ..locked },
            worker: WorkerView {
                carried: queue_with(w.carried, scene.resources[i].kind),
                reserved: kept,
                ..w
            },
            moved: false,
            blocked: false,
            done: true,
        },
        None => Outcome {
            tick: locked,
            worker: WorkerView { reserved: kept, ..w },
            moved: false,
            blocked: false,
            done: true,
        },
    }
}

/// The first base from place `i` on that stands at `pos`.
pub open spec fn base_from(bases: Seq<GridPos>, pos: GridPos, i: int) -> Option<int>
    decreases bases.len() - i,
{
    if i < 0 || i >= bases.len() {
        None
    } else if bases[i] == pos {
        Some(i)
    } else {
        base_from(bases, pos, i + 1)
    }
}

/// A stock with everything in `carried` added.
pub open spec fn stocked(stock: Seq<int>, carried: Seq<ResourceKind>) -> Seq<int> {
    Seq::new(3, |i: int| stock[i] + inventory::occurrences(carried, inventory::kind_at(i)))
}

/// Dropping: a worker on a base hands over all that it carries.
pub open spec fn after_drop(scene: SceneView, t: TickView, w: WorkerView) -> Outcome {
    match base_from(scene.bases, w.pos, 0) {
        Some(b) => Outcome {
            tick: TickView { stock: t.stock.update(b, stocked(t.stock[b], w.carried)), ..t },
            worker: WorkerView { carried: Seq::empty(), ..w },
            moved: false,
            blocked: false,
            done: true,
        },
        None => Outcome { tick: t, worker: w, moved: false, blocked: false, done: true },
    }
}

/// Taking up a plan. A plan to a resource claims the tile where it ends.
pub open spec fn with_plan(
    t: TickView,
    w: WorkerView,
    target: Target,
    plan: Seq<Direction>,
) -> (TickView, WorkerView) {
    let free = released(t.claims, w.reserved);
    let dest = grid::walk_end(w.pos@, plan);
    if target is Resource && plan.len() > 0 {
        (
            TickView { claims: free.insert(dest), ..t },
            WorkerView { plan, reserved: Some(walk::pos_of(dest)), ..w },
        )
    } else {
        (TickView { claims: free, ..t }, WorkerView { plan, reserved: None, ..w })
    }
}

/// Makes a plan if there is none. Other workers are left out of account: they may be gone by
/// then.
pub open spec fn planned(
    scene: SceneView,
    t: TickView,
    w: WorkerView,
    target: Target,
) -> (TickView, WorkerView) {
    if w.plan.len() > 0 {
        (t, w)
    } else {
        with_plan(
            t,
            w,
            target,
            plan_for(scene, released(t.claims, w.reserved), Set::empty(), w.pos, target),
        )
    }
}

/// A planned step in direction `d` was foiled: the worker makes a new plan around the other
/// workers, to follow from the next tick on, and sidesteps if there is none.
pub open spec fn bumped(
    scene: SceneView,
    t: TickView,
    w: WorkerView,
    target: Target,
    d: Direction,
) -> Outcome {
    let alt = plan_for(
        scene,
        released(t.claims, w.reserved),
        t.occupied.remove(w.pos@),
        w.pos,
        target,
    );
    let (t1, w1) = with_plan(t, w, target, alt);
    if alt.len() > 0 {
        Outcome { tick: t1, worker: w1, moved: false, blocked: true, done: false }
    } else {
        let (t2, w2, moved) = sidestepped(scene, t1, w1, d, 0);
        Outcome { tick: t2, worker: w2, moved, blocked: true, done: false }
    }
}

/// Going to a target: one step of the plan. The instruction is done once the plan has been
/// walked to its end, or if there is none.
pub open spec fn after_navigate(
    scene: SceneView,
    t: TickView,
    w: WorkerView,
    target: Target,
) -> Outcome {
    let (t1, w1) = planned(scene, t, w, target);
    if w1.plan.len() == 0 {
        Outcome { tick: t1, worker: w1, moved: false, blocked: false, done: true }
    } else {
        let (t2, w2, moved) = stepped(scene, t1, w1, w1.plan[0]);
        if moved {
            Outcome {
                tick: t2,
                worker: WorkerView { plan: w1.plan.drop_first(), ..w2 },
                moved: true,
                blocked: false,
                done: w1.plan.len() == 1,
            }
        } else {
            bumped(scene, t2, w2, target, w1.plan[0])
        }
    }
}

/// A jump: the target counts round the end of the program.
pub open spec fn after_jump(t: TickView, w: WorkerView, target: usize, taken: bool) -> Outcome {
    Outcome {
        tick: t,
        worker: if taken {
            WorkerView { pc: target as int % w.instructions.len() as int, ..w }
        } else {
            w
        },
        moved: false,
        blocked: false,
        done: !taken,
    }
}

/// The states after one action.
pub open spec fn after_action(
    scene: SceneView,
    t: TickView,
    w: WorkerView,
    action: Action,
) -> Outcome {
    match action {
        Action::Move(d) => {
            let (t1, w1, moved) = stepped(scene, t, w, d);
            Outcome { tick: t1, worker: w1, moved, blocked: !moved, done: true }
        },
        Action::Wait => Outcome { tick: t, worker: w, moved: false, blocked: false, done: true },
        Action::Pickup(filter) => after_pickup(scene, t, w, filter),
        Action::Drop => after_drop(scene, t, w),
        Action::NavigateTo(_, target) => after_navigate(scene, t, w, target),
        Action::Jump(target) => after_jump(t, w, target, true),
        Action::JumpIf(cond, target) => after_jump(
            t,
            w,
            target,
            program::condition_holds(cond, w.carried),
        ),
        Action::JumpUnless(cond, target) => after_jump(
            t,
            w,
            target,
            !program::condition_holds(cond, w.carried),
        ),
    }
}

/// The place of the next instruction; after the last comes the first.
pub open spec fn pc_advanced(w: WorkerView) -> WorkerView {
    WorkerView { pc: (w.pc + 1) % w.instructions.len() as int, ..w }
}

/// New nodes on a tile, one for each item.
pub open spec fn spill_commands(carried: Seq<ResourceKind>, pos: GridPos) -> Seq<Command> {
    Seq::new(
        carried.len(),
        |i: int| Command::SpawnResource(ResourceNode { kind: carried[i], pos }),
    )
}

/// A worker gives up: it frees its reservation, spills what it carries, and goes.
pub open spec fn given_up(t: TickView, w: WorkerView, id: int) -> (TickView, WorkerView) {
    (
        TickView {
            claims: released(t.claims, w.reserved),
            commands: (t.commands + spill_commands(w.carried, w.pos)).push(
                Command::DespawnWorker(id as usize),
            ),
            ..t
        },
        WorkerView { carried: Seq::empty(), reserved: None, ..w },
    )
}

/// Counting of foiled moves: any move starts the count anew; a foiled one that led to no move is
/// counted, and at the limit the worker gives up. Workers without a count never do.
pub open spec fn bump_counted(
    t: TickView,
    w: WorkerView,
    moved: bool,
    blocked: bool,
    id: int,
) -> (TickView, WorkerView) {
    match w.bumps {
        None => (t, w),
        Some(b) => if moved {
            (t, WorkerView { bumps: Some(0), ..w })
        } else if blocked {
            let counted = WorkerView { bumps: Some(b + 1), ..w };
            if b + 1 >= MAX_BUMPS {
                given_up(t, counted, id)
            } else {
                (t, counted)
            }
        } else {
            (t, w)
        },
    }
}

/// One worker's turn.
pub open spec fn turn(scene: SceneView, t: TickView, w: WorkerView, id: int) -> (
    TickView,
    WorkerView,
) {
    if w.instructions.len() == 0 {
        (t, w)
    } else {
        let o = after_action(scene, t, w, w.instructions[w.pc]);
        let w1 = if o.done {
            pc_advanced(o.worker)
        } else {
            o.worker
        };
        bump_counted(o.tick, w1, o.moved, o.blocked, id)
    }
}

/// The states after the turns of the first `n` workers.
pub open spec fn turns(scene: SceneView, t: TickView, ws: Seq<WorkerView>, n: nat) -> (
    TickView,
    Seq<WorkerView>,
)
    decreases n,
{
    if n == 0 || n > ws.len() {
        (t, ws)
    } else {
        let (t1, ws1) = turns(scene, t, ws, (n - 1) as nat);
        let (t2, w2) = turn(scene, t1, ws1[n - 1], n - 1);
        (t2, ws1.update(n - 1, w2))
    }
}

/// True if a worker holds a reservation of the cell.
pub open spec fn reserves(w: WorkerView, c: Cell) -> bool {
    w.reserved matches Some(p) && p@ == c
}

/// What workers see at the beginning of a tick: nothing picked up yet, every reservation
/// claimed, every worker's tile occupied.
pub open spec fn tick_start(ws: Seq<WorkerView>, stock: Seq<Seq<int>>) -> TickView {
    TickView {
        picked: Set::empty(),
        claims: Set::new(
            |c: Cell|
                exists|i: int|
                    0 <= i < ws.len() && reserves(#[trigger] ws[i], c),
        ),
        occupied: Set::new(
            |c: Cell| exists|i: int| 0 <= i < ws.len() && (#[trigger] ws[i]).pos@ == c,
        ),
        stock,
        commands: Seq::empty(),
    }
}

/// True if every base can hold its stock.
pub open spec fn holdable(stock: Seq<Seq<int>>) -> bool {
    forall|b: int, k: ResourceKind|
        0 <= b < stock.len() ==> (#[trigger] stock[b][k.slot()]) <= u32::MAX
}

/// True if every worker's count of foiled moves fits.
pub open spec fn countable(ws: Seq<WorkerView>) -> bool {
    forall|i: int|
        0 <= i < ws.len() ==> ((#[trigger] ws[i]).bumps matches Some(b) ==> b <= u32::MAX)
}

/// How many items of a kind the workers from place `i` on carry.
pub open spec fn carried_from(ws: Seq<WorkerView>, i: int, kind: ResourceKind) -> nat
    decreases ws.len() - i,
{
    if i < 0 || i >= ws.len() {
        0
    } else {
        inventory::occurrences(ws[i].carried, kind) + carried_from(ws, i + 1, kind)
    }
}

} // verus!
