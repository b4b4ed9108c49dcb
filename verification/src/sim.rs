//! Running one tick: every worker, in turn, runs one instruction of its program.

use std::collections::VecDeque;
use vstd::prelude::*;
use crate::anim::Facing;
use crate::grid;
use crate::grid::{cardinal_dirs, Cell, Direction, GridPos, GRID_H, GRID_W};
use crate::inventory;
use crate::inventory::{Base, Inventory, ResourceKind};
use crate::laws;
use crate::ledger;
use crate::motion::{path_destination, step_in_direction};
use crate::path::find_path;
use crate::program::{evaluate_condition, Action, Program, Target};
use crate::rules;
use crate::rules::{Command, Outcome, ResourceNode, SceneView, TickView, WorkerView, MAX_BUMPS};
use crate::tiles::TileSet;
use crate::walk;
use crate::world::{Terrain, World};

verus! {

/// A cached plan, followed one step per tick, and the resource tile that the worker has reserved
/// while on its way there.
pub struct NavState {
    pub plan: VecDeque<Direction>,
    pub reserved_tile: Option<GridPos>,
}

impl Default for NavState {
    fn default() -> (nav: NavState)
        ensures
            nav.plan@.len() == 0,
            nav.reserved_tile is None,
    {
        NavState { plan: VecDeque::new(), reserved_tile: None }
    }
}

/// Number of ticks in a row in which an intended move was foiled.
#[derive(Copy, Clone, Debug)]
pub struct BumpCount(pub u32);

/// A worker. One without a bump count never gives up.
pub struct Worker {
    pub pos: GridPos,
    pub program: Program,
    pub facing: Facing<i32>,
    pub inventory: Inventory,
    pub nav: NavState,
    pub bumps: Option<BumpCount>,
}

impl View for Worker {
    type V = WorkerView;

    open spec fn view(&self) -> WorkerView {
        WorkerView {
            pos: self.pos,
            prev_yaw: self.facing.prev_yaw as int,
            yaw: self.facing.current_yaw as int,
            instructions: self.program.instructions@,
            pc: self.program.pc as int,
            carried: self.inventory@,
            plan: self.nav.plan@,
            reserved: self.nav.reserved_tile,
            bumps: match self.bumps {
                Some(b) => Some(b.0 as int),
                None => None,
            },
        }
    }
}

/// True if an action at a cell needs no position that cannot be represented: a move asks for the
/// one neighbour, going to a target for all of them.
pub open spec fn within_reach(action: Action, c: Cell) -> bool {
    match action {
        Action::Move(d) => grid::representable(grid::neighbor(c, d)),
        Action::NavigateTo(_, _) => grid::steppable(c),
        _ => true,
    }
}

impl Worker {
    /// True if the worker can take its turn: unless its program is empty, the place of the next
    /// instruction is one of the program, and the instruction is within reach.
    pub open spec fn ready(&self) -> bool {
        &&& self.program.wf()
        &&& self.program.instructions@.len() > 0 ==> within_reach(
            self.program.instructions@[self.program.pc as int],
            self.pos@,
        )
    }

    /// True if the worker's count of foiled moves can go up, or the next instruction is none that
    /// can be foiled.
    pub open spec fn counts_on(&self) -> bool {
        self.program.instructions@.len() > 0
            && self.program.instructions@[self.program.pc as int].walks() ==> (
        self.bumps matches Some(b) ==> b.0 < u32::MAX)
    }

    /// True if the worker can take its turn, and its count can go up if need be.
    fn is_able(&self) -> (b: bool)
        ensures
            b == (self.ready() && self.counts_on()),
    {
        let n = self.program.instructions.len();
        if n == 0 {
            return true;
        }
        if self.program.pc >= n {
            return false;
        }
        let can_count = match self.bumps {
            Some(b) => b.0 < u32::MAX,
            None => true,
        };
        match self.program.instructions[self.program.pc] {
            Action::Move(d) => can_count && match d {
                Direction::North => self.pos.y > i32::MIN,
                Direction::South => self.pos.y < i32::MAX,
                Direction::East => self.pos.x < i32::MAX,
                Direction::West => self.pos.x > i32::MIN,
            },
            Action::NavigateTo(_, _) => can_count && i32::MIN < self.pos.x && self.pos.x < i32::MAX
                && i32::MIN < self.pos.y && self.pos.y < i32::MAX,
            _ => true,
        }
    }
}

/// A base and where it stands.
pub struct BaseSite {
    pub pos: GridPos,
    pub base: Base,
}

/// The stock of a base.
pub open spec fn stock_of(site: BaseSite) -> Seq<int> {
    Seq::new(3, |i: int| site.base.stored@[i] as int)
}

/// The stocks of all bases.
pub open spec fn stocks(bases: Seq<BaseSite>) -> Seq<Seq<int>> {
    Seq::new(bases.len(), |i: int| stock_of(bases[i]))
}

/// What does not change during a tick.
pub open spec fn scene_of(
    tiles: Seq<Terrain>,
    resources: Seq<ResourceNode>,
    bases: Seq<BaseSite>,
) -> SceneView {
    SceneView { tiles, resources, bases: Seq::new(bases.len(), |i: int| bases[i].pos) }
}

/// The views of all workers.
pub open spec fn views(workers: Seq<Worker>) -> Seq<WorkerView> {
    Seq::new(workers.len(), |i: int| workers[i]@)
}

/// What workers share during a tick.
struct TickState {
    picked: TileSet,
    claims: TileSet,
    occupied: TileSet,
    commands: Vec<Command>,
}

impl TickState {
    spec fn seen(&self, bases: Seq<BaseSite>) -> TickView {
        TickView {
            picked: self.picked@,
            claims: self.claims@,
            occupied: self.occupied@,
            stock: stocks(bases),
            commands: self.commands@,
        }
    }
}

/// What became of an action.
struct Effect {
    moved: bool,
    blocked: bool,
    done: bool,
}

/// The outcome that two states and an effect make.
spec fn outcome(tick: TickView, worker: WorkerView, effect: Effect) -> Outcome {
    Outcome { tick, worker, moved: effect.moved, blocked: effect.blocked, done: effect.done }
}

/// Every cell of an open walk is representable.
proof fn lemma_open_walk_representable(
    tiles: Seq<Terrain>,
    blocked: Set<Cell>,
    c: Cell,
    w: Seq<Direction>,
    n: int,
)
    requires
        grid::representable(c),
        walk::open_walk(tiles, blocked, c, w),
        0 <= n <= w.len(),
    ensures
        grid::representable(grid::walk_end(c, w.take(n))),
    decreases w.len(),
{
    if n == w.len() {
        assert(w.take(n) =~= w);
    } else {
        lemma_open_walk_representable(tiles, blocked, c, w.drop_last(), n);
        assert(w.drop_last().take(n) =~= w.take(n));
    }
}

/// A worker's plan to a target, around the tiles in `blocked`.
fn make_plan(
    world: &World,
    resources: &Vec<ResourceNode>,
    bases: &Vec<BaseSite>,
    claims: &TileSet,
    blocked: &TileSet,
    pos: GridPos,
    target: Target,
) -> (plan: VecDeque<Direction>)
    requires
        world.wf(),
        grid::steppable(pos@),
    ensures
        plan@ == rules::plan_for(
            scene_of(world.tiles@, resources@, bases@),
            claims@,
            blocked@,
            pos,
            target,
        ),
        walk::open_walk(world.tiles@, blocked@, pos@, plan@),
{
    let targets = gather_targets(resources, bases, claims, target, Ghost(world.tiles@));
    let is_target = |p: GridPos| -> (b: bool)
        ensures
            b == targets@.contains(p@),
        { targets.contains(&p) };
    let found = find_path(world, pos, is_target, blocked);
    proof {
        assert forall|w: Seq<Direction>|
            walk::open_walk(world.tiles@, blocked@, pos@, w) implies walk::pos_of(
            #[trigger] grid::walk_end(pos@, w),
        )@ == grid::walk_end(pos@, w) by {
            lemma_open_walk_representable(world.tiles@, blocked@, pos@, w, w.len() as int);
            assert(w.take(w.len() as int) =~= w);
        }
    }
    match found {
        Some(path) => {
            proof {
                assert(rules::best_walk(world.tiles@, blocked@, pos@, targets@, path@));
                let chosen = choose|w: Seq<Direction>|
                    rules::best_walk(world.tiles@, blocked@, pos@, targets@, w);
                grid::law_walk_rank_is_injective(path@, chosen);
            }
            path
        },
        None => {
            let none: VecDeque<Direction> = VecDeque::new();
            proof {
                assert forall|w: Seq<Direction>| !rules::best_walk(
                    world.tiles@,
                    blocked@,
                    pos@,
                    targets@,
                    w,
                ) by {
                    if walk::open_walk(world.tiles@, blocked@, pos@, w) {
                        assert(walk::pos_of(grid::walk_end(pos@, w))@ == grid::walk_end(pos@, w));
                    }
                }
                assert(none@ =~= Seq::<Direction>::empty());
            }
            none
        },
    }
}

/// The positions that a target stands for.
fn gather_targets(
    resources: &Vec<ResourceNode>,
    bases: &Vec<BaseSite>,
    claims: &TileSet,
    target: Target,
    tiles: Ghost<Seq<Terrain>>,
) -> (targets: TileSet)
    ensures
        targets@ == rules::target_cells(scene_of(tiles@, resources@, bases@), claims@, target),
{
    let ghost scene = scene_of(tiles@, resources@, bases@);
    let mut targets = TileSet::new();
    match target {
        Target::Resource(kind) => {
            let mut i: usize = 0;
            while i < resources.len()
                invariant
                    scene.resources == resources@,
                    i <= resources@.len(),
                    forall|c: Cell| #[trigger]
                        targets@.contains(c) <==> !claims@.contains(c) && exists|k: int|
                            0 <= k < i && (#[trigger] resources@[k]).kind == kind
                                && resources@[k].pos@ == c,
                decreases resources@.len() - i,
            {
                let node = resources[i];
                if node.kind == kind && !claims.contains(&node.pos) {
                    targets.insert(node.pos);
                }
                i += 1;
            }
            assert(targets@ =~= rules::target_cells(scene, claims@, target));
        },
        Target::Base => {
            let mut i: usize = 0;
            while i < bases.len()
                invariant
                    scene.bases.len() == bases@.len(),
                    forall|k: int|
                        0 <= k < bases@.len() ==> #[trigger] scene.bases[k] == bases@[k].pos,
                    i <= bases@.len(),
                    forall|c: Cell| #[trigger]
                        targets@.contains(c) <==> exists|k: int|
                            0 <= k < i && (#[trigger] scene.bases[k])@ == c,
                decreases bases@.len() - i,
            {
                targets.insert(bases[i].pos);
                proof {
                    assert(scene.bases[i as int] == bases@[i as int].pos);
                }
                i += 1;
            }
            assert(targets@ =~= rules::target_cells(scene, claims@, target));
        },
    }
    targets
}

/// One step of a worker in a direction; true if it moved.
fn step(
    world: &World,
    tick: &mut TickState,
    worker: &mut Worker,
    dir: Direction,
    bases: Ghost<Seq<BaseSite>>,
    resources: Ghost<Seq<ResourceNode>>,
) -> (moved: bool)
    requires
        world.wf(),
        grid::representable(grid::neighbor(old(worker).pos@, dir)),
    ensures
        (final(tick).seen(bases@), final(worker)@, moved) == rules::stepped(
            scene_of(world.tiles@, resources@, bases@),
            old(tick).seen(bases@),
            old(worker)@,
            dir,
        ),
        final(worker).program == old(worker).program,
        final(worker).bumps == old(worker).bumps,
        grid::steppable(old(worker).pos@) ==> grid::steppable(final(worker).pos@),
{
    let ghost expected = rules::stepped(
        scene_of(world.tiles@, resources@, bases@),
        tick.seen(bases@),
        worker@,
        dir,
    );
    let moved = step_in_direction(
        world,
        &mut worker.pos,
        &mut worker.facing,
        dir,
        &mut tick.occupied,
    );
    assert(worker@ =~= expected.1);
    assert(tick.seen(bases@) =~= expected.0);
    moved
}

/// Picking up.
fn pick_up(
    world: &World,
    resources: &Vec<ResourceNode>,
    bases: &Vec<BaseSite>,
    tick: &mut TickState,
    worker: &mut Worker,
    filter: Option<ResourceKind>,
) -> (effect: Effect)
    ensures
        outcome(final(tick).seen(bases@), final(worker)@, effect) == rules::after_pickup(
            scene_of(world.tiles@, resources@, bases@),
            old(tick).seen(bases@),
            old(worker)@,
            filter,
        ),
        final(worker).program == old(worker).program,
        final(worker).bumps == old(worker).bumps,
        final(worker).pos == old(worker).pos,
{
    let pos = worker.pos;
    if tick.picked.insert(pos) {
        let hit = find_pickup(resources, pos, filter);
        if let Some(i) = hit {
            let kind = resources[i].kind;
            tick.commands.push(Command::DespawnResource(i));
            let evicted = worker.inventory.push(kind);
            if let Some(e) = evicted {
                tick.commands.push(Command::SpawnResource(ResourceNode { kind: e, pos }));
            }
            assert(tick.commands@ =~= old(tick).commands@ + rules::pickup_commands(
                old(worker)@.carried,
                pos,
                i as int,
            ));
        }
    }
    if let Some(p) = worker.nav.reserved_tile {
        if p == pos {
            worker.nav.reserved_tile = None;
        }
    }
    Effect { moved: false, blocked: false, done: true }
}

/// The place of the first node that a pickup takes.
fn find_pickup(
    resources: &Vec<ResourceNode>,
    pos: GridPos,
    filter: Option<ResourceKind>,
) -> (hit: Option<usize>)
    ensures
        match hit {
            Some(i) => i < resources@.len() && rules::pickup_from(resources@, pos, filter, 0)
                == Some(i as int),
            None => rules::pickup_from(resources@, pos, filter, 0) is None,
        },
{
    let mut i: usize = 0;
    while i < resources.len()
        invariant
            i <= resources@.len(),
            rules::pickup_from(resources@, pos, filter, 0) == rules::pickup_from(
                resources@,
                pos,
                filter,
                i as int,
            ),
        decreases resources@.len() - i,
    {
        let node = resources[i];
        let wanted = match filter {
            None => true,
            Some(k) => node.kind == k,
        };
        if node.pos == pos && wanted {
            return Some(i);
        }
        i += 1;
    }
    None
}

/// True if the bases stand where they stood.
spec fn same_sites(before: Seq<BaseSite>, after: Seq<BaseSite>) -> bool {
    &&& before.len() == after.len()
    &&& forall|b: int| 0 <= b < after.len() ==> (#[trigger] after[b]).pos == before[b].pos
}

/// Dropping.
fn deliver(
    world: &World,
    resources: &Vec<ResourceNode>,
    bases: &mut Vec<BaseSite>,
    tick: &mut TickState,
    worker: &mut Worker,
) -> (effect: Effect)
    requires
        rules::holdable(
            rules::after_drop(
                scene_of(world.tiles@, resources@, old(bases)@),
                old(tick).seen(old(bases)@),
                old(worker)@,
            ).tick.stock,
        ),
    ensures
        outcome(final(tick).seen(final(bases)@), final(worker)@, effect) == rules::after_drop(
            scene_of(world.tiles@, resources@, old(bases)@),
            old(tick).seen(old(bases)@),
            old(worker)@,
        ),
        final(worker).program == old(worker).program,
        final(worker).bumps == old(worker).bumps,
        final(worker).pos == old(worker).pos,
        same_sites(old(bases)@, final(bases)@),
{
    let ghost scene = scene_of(world.tiles@, resources@, bases@);
    let ghost bases0 = bases@;
    let ghost w0 = worker@;
    let mut i: usize = 0;
    while i < bases.len()
        invariant
            i <= bases@.len(),
            scene.bases.len() == bases@.len(),
            forall|k: int| 0 <= k < bases@.len() ==> #[trigger] scene.bases[k] == bases@[k].pos,
            bases@ == bases0,
            *worker == *old(worker),
            *tick == *old(tick),
            rules::holdable(rules::after_drop(scene, old(tick).seen(bases0), w0).tick.stock),
            rules::base_from(scene.bases, worker.pos, 0) == rules::base_from(
                scene.bases,
                worker.pos,
                i as int,
            ),
            w0 == old(worker)@,
            scene == scene_of(world.tiles@, resources@, old(bases)@),
            bases0 == old(bases)@,
        decreases bases@.len() - i,
    {
        if bases[i].pos == worker.pos {
            proof {
                assert(scene.bases[i as int] == bases@[i as int].pos);
                let after = rules::after_drop(scene, old(tick).seen(bases0), w0).tick.stock;
                assert forall|k: ResourceKind|
                    (#[trigger] bases@[i as int].base.stored@[k.slot()]) + inventory::occurrences(
                        worker.inventory@,
                        k,
                    ) <= u32::MAX by {
                    assert(after[i as int][k.slot()] <= u32::MAX);
                    assert(inventory::kind_at(k.slot()) == k);
                }
            }
            let mut stored = bases[i].base.stored;
            worker.inventory.drain_into(&mut stored);
            let pos = bases[i].pos;
            bases[i] = BaseSite { pos, base: Base { stored } };
            proof {
                assert(worker@.carried =~= Seq::<ResourceKind>::empty());
                let before = bases0[i as int];
                assert forall|k: int| 0 <= k < 3 implies #[trigger] stored@[k]
                    == before.base.stored@[k] + inventory::occurrences(
                    w0.carried,
                    inventory::kind_at(k),
                ) by {
                    let kind = inventory::kind_at(k);
                    assert(kind.slot() == k);
                    assert(stored@[kind.slot()] == before.base.stored@[kind.slot()]
                        + inventory::occurrences(w0.carried, kind));
                }
                assert(stock_of(bases@[i as int]) =~= rules::stocked(stock_of(before), w0.carried));
                assert(stocks(bases@) =~= stocks(bases0).update(
                    i as int,
                    rules::stocked(stocks(bases0)[i as int], w0.carried),
                ));
            }
            return Effect { moved: false, blocked: false, done: true };
        }
        i += 1;
    }
    Effect { moved: false, blocked: false, done: true }
}

/// Takes up a plan, in place of the worker's plan and reservation.
fn adopt_plan(
    tick: &mut TickState,
    worker: &mut Worker,
    target: Target,
    plan: VecDeque<Direction>,
    bases: Ghost<Seq<BaseSite>>,
    tiles: Ghost<Seq<Terrain>>,
    blocked: Ghost<Set<Cell>>,
)
    requires
        grid::steppable(old(worker).pos@),
        old(worker).nav.reserved_tile is None,
        walk::open_walk(tiles@, blocked@, old(worker).pos@, plan@),
    ensures
        (final(tick).seen(bases@), final(worker)@) == rules::with_plan(
            old(tick).seen(bases@),
            old(worker)@,
            target,
            plan@,
        ),
        final(worker).program == old(worker).program,
        final(worker).bumps == old(worker).bumps,
        final(worker).pos == old(worker).pos,
        final(worker).nav.plan@ == plan@,
{
    if let Target::Resource(_) = target {
        if plan.len() > 0 {
            proof {
                assert forall|n: int| 0 <= n <= plan@.len() implies grid::representable(
                    #[trigger] grid::walk_end(worker.pos@, plan@.take(n)),
                ) by {
                    lemma_open_walk_representable(tiles@, blocked@, worker.pos@, plan@, n);
                }
            }
            let dest = path_destination(worker.pos, &plan);
            worker.nav.reserved_tile = Some(dest);
            tick.claims.insert(dest);
            assert(dest == walk::pos_of(grid::walk_end(worker.pos@, plan@)));
        }
    }
    worker.nav.plan = plan;
}

/// Gives up the worker's reservation.
fn release(tick: &mut TickState, worker: &mut Worker, bases: Ghost<Seq<BaseSite>>)
    ensures
        final(tick).seen(bases@) == (TickView {
            claims: rules::released(old(tick).claims@, old(worker).nav.reserved_tile),
            ..old(tick).seen(bases@)
        }),
        final(worker)@ == (WorkerView { reserved: None, ..old(worker)@ }),
        final(worker).program == old(worker).program,
        final(worker).bumps == old(worker).bumps,
        final(worker).pos == old(worker).pos,
        final(worker).nav.reserved_tile is None,
        final(worker).nav.plan == old(worker).nav.plan,
{
    if let Some(prev) = worker.nav.reserved_tile {
        worker.nav.reserved_tile = None;
        tick.claims.remove(&prev);
    }
}

/// Steps aside, in the first direction but for `bumped` in which the way is free.
fn sidestep(
    world: &World,
    tick: &mut TickState,
    worker: &mut Worker,
    bumped: Direction,
    bases: Ghost<Seq<BaseSite>>,
    resources: Ghost<Seq<ResourceNode>>,
) -> (moved: bool)
    requires
        world.wf(),
        grid::steppable(old(worker).pos@),
    ensures
        (final(tick).seen(bases@), final(worker)@, moved) == rules::sidestepped(
            scene_of(world.tiles@, resources@, bases@),
            old(tick).seen(bases@),
            old(worker)@,
            bumped,
            0,
        ),
        final(worker).program == old(worker).program,
        final(worker).bumps == old(worker).bumps,
        grid::steppable(final(worker).pos@),
{
    let ghost scene = scene_of(world.tiles@, resources@, bases@);
    let dirs = cardinal_dirs();
    let mut r: usize = 0;
    while r < 4
        invariant
            world.wf(),
            scene == scene_of(world.tiles@, resources@, bases@),
            grid::steppable(worker.pos@),
            worker.program == old(worker).program,
            worker.bumps == old(worker).bumps,
            r <= 4,
            forall|i: int| 0 <= i < 4 ==> (#[trigger] dirs@[i]).rank() == i,
            rules::sidestepped(scene, tick.seen(bases@), worker@, bumped, r as nat)
                == rules::sidestepped(scene, old(tick).seen(bases@), old(worker)@, bumped, 0),
        decreases 4 - r,
    {
        let dir = dirs[r];
        assert(dir == rules::direction_at(r as nat));
        if dir != bumped {
            if step(world, tick, worker, dir, bases, resources) {
                return true;
            }
        }
        r += 1;
    }
    false
}

/// Going to a target.
fn navigate(
    world: &World,
    resources: &Vec<ResourceNode>,
    bases: &Vec<BaseSite>,
    tick: &mut TickState,
    worker: &mut Worker,
    target: Target,
) -> (effect: Effect)
    requires
        world.wf(),
        grid::steppable(old(worker).pos@),
    ensures
        outcome(final(tick).seen(bases@), final(worker)@, effect) == rules::after_navigate(
            scene_of(world.tiles@, resources@, bases@),
            old(tick).seen(bases@),
            old(worker)@,
            target,
        ),
        final(worker).program == old(worker).program,
        final(worker).bumps == old(worker).bumps,
        grid::steppable(final(worker).pos@),
{
    let ghost scene = scene_of(world.tiles@, resources@, bases@);
    let ghost t0 = tick.seen(bases@);
    let ghost w0 = worker@;
    if worker.nav.plan.len() == 0 {
        release(tick, worker, Ghost(bases@));
        let nothing = TileSet::new();
        let plan = make_plan(world, resources, bases, &tick.claims, &nothing, worker.pos, target);
        adopt_plan(tick, worker, target, plan, Ghost(bases@), Ghost(world.tiles@), Ghost(nothing@));
    }
    proof {
        assert((tick.seen(bases@), worker@) == rules::planned(scene, t0, w0, target));
    }
    if worker.nav.plan.len() == 0 {
        return Effect { moved: false, blocked: false, done: true };
    }
    let ghost w1 = worker@;
    let dir = worker.nav.plan[0];
    if step(world, tick, worker, dir, Ghost(bases@), Ghost(resources@)) {
        worker.nav.plan.pop_front();
        let done = worker.nav.plan.len() == 0;
        assert(worker.nav.plan@ =~= w1.plan.drop_first());
        return Effect { moved: true, blocked: false, done };
    }
    let ghost t2 = tick.seen(bases@);
    release(tick, worker, Ghost(bases@));
    let pos = worker.pos;
    let here = tick.occupied.remove(&pos);
    let ghost obstacles = tick.occupied@;
    let alt = make_plan(world, resources, bases, &tick.claims, &tick.occupied, pos, target);
    if here {
        tick.occupied.insert(pos);
    }
    assert(tick.occupied@ =~= t2.occupied);
    let detour = alt.len() > 0;
    adopt_plan(tick, worker, target, alt, Ghost(bases@), Ghost(world.tiles@), Ghost(obstacles));
    if detour {
        return Effect { moved: false, blocked: true, done: false };
    }
    let moved = sidestep(world, tick, worker, dir, Ghost(bases@), Ghost(resources@));
    Effect { moved, blocked: true, done: false }
}

/// One action of a worker.
fn act(
    world: &World,
    resources: &Vec<ResourceNode>,
    bases: &mut Vec<BaseSite>,
    tick: &mut TickState,
    worker: &mut Worker,
    action: Action,
) -> (effect: Effect)
    requires
        world.wf(),
        within_reach(action, old(worker).pos@),
        rules::holdable(
            rules::after_action(
                scene_of(world.tiles@, resources@, old(bases)@),
                old(tick).seen(old(bases)@),
                old(worker)@,
                action,
            ).tick.stock,
        ),
        old(worker).program.instructions@.len() > 0,
    ensures
        outcome(final(tick).seen(final(bases)@), final(worker)@, effect) == rules::after_action(
            scene_of(world.tiles@, resources@, old(bases)@),
            old(tick).seen(old(bases)@),
            old(worker)@,
            action,
        ),
        final(worker).program.instructions == old(worker).program.instructions,
        final(worker).program.pc == old(worker).program.pc || final(worker).program.pc
            < final(worker).program.instructions@.len(),
        final(worker).bumps == old(worker).bumps,
        same_sites(old(bases)@, final(bases)@),
{
    match action {
        Action::Move(dir) => {
            let moved = step(world, tick, worker, dir, Ghost(bases@), Ghost(resources@));
            Effect { moved, blocked: !moved, done: true }
        },
        Action::Wait => Effect { moved: false, blocked: false, done: true },
        Action::Pickup(filter) => pick_up(world, resources, bases, tick, worker, filter),
        Action::Drop => deliver(world, resources, bases, tick, worker),
        Action::NavigateTo(_, target) => navigate(world, resources, bases, tick, worker, target),
        Action::Jump(target) => {
            worker.program.pc = target % worker.program.instructions.len();
            Effect { moved: false, blocked: false, done: false }
        },
        Action::JumpIf(cond, target) => {
            let taken = evaluate_condition(cond, &worker.inventory);
            if taken {
                worker.program.pc = target % worker.program.instructions.len();
            }
            Effect { moved: false, blocked: false, done: !taken }
        },
        Action::JumpUnless(cond, target) => {
            let taken = !evaluate_condition(cond, &worker.inventory);
            if taken {
                worker.program.pc = target % worker.program.instructions.len();
            }
            Effect { moved: false, blocked: false, done: !taken }
        },
    }
}

/// Counts a foiled move, or starts the count anew after a move; at the limit the worker gives up.
fn count_bump(
    tick: &mut TickState,
    worker: &mut Worker,
    moved: bool,
    blocked: bool,
    id: usize,
    bases: Ghost<Seq<BaseSite>>,
)
    requires
        blocked && !moved ==> (old(worker).bumps matches Some(b) ==> b.0 < u32::MAX),
    ensures
        (final(tick).seen(bases@), final(worker)@) == rules::bump_counted(
            old(tick).seen(bases@),
            old(worker)@,
            moved,
            blocked,
            id as int,
        ),
        final(worker).program == old(worker).program,
        final(worker).pos == old(worker).pos,
{
    let count = match worker.bumps {
        Some(b) => b.0,
        None => {
            return;
        },
    };
    if moved {
        worker.bumps = Some(BumpCount(0));
    } else if blocked {
        worker.bumps = Some(BumpCount(count + 1));
        if count + 1 >= MAX_BUMPS {
            release(tick, worker, bases);
            let ghost commands0 = tick.commands@;
            let ghost queue0 = worker.inventory@;
            let ghost w1 = worker@;
            let pos = worker.pos;
            let ghost mut n: int = 0;
            while worker.inventory.queue.len() > 0
                invariant
                    0 <= n <= queue0.len(),
                    worker.inventory@ == queue0.skip(n),
                    tick.commands@ == commands0 + rules::spill_commands(queue0.take(n), pos),
                    worker@ == (WorkerView { carried: worker.inventory@, ..w1 }),
                    worker.program == old(worker).program,
                    worker.pos == pos,
                    pos == old(worker).pos,
                    tick.picked@ == old(tick).picked@,
                    tick.occupied@ == old(tick).occupied@,
                    tick.claims@ == rules::released(
                        old(tick).claims@,
                        old(worker).nav.reserved_tile,
                    ),
                decreases worker.inventory@.len(),
            {
                if let Some(kind) = worker.inventory.queue.pop_front() {
                    tick.commands.push(Command::SpawnResource(ResourceNode { kind, pos }));
                    proof {
                        assert(queue0.take(n + 1) =~= queue0.take(n).push(kind));
                        assert(tick.commands@ =~= commands0 + rules::spill_commands(
                            queue0.take(n + 1),
                            pos,
                        ));
                        assert(worker.inventory@ =~= queue0.skip(n + 1));
                        n = n + 1;
                    }
                }
            }
            assert(queue0.take(n) =~= queue0);
            tick.commands.push(Command::DespawnWorker(id));
            assert(worker@.carried =~= Seq::<ResourceKind>::empty());
        }
    }
}

/// One worker's turn.
fn take_turn(
    world: &World,
    resources: &Vec<ResourceNode>,
    bases: &mut Vec<BaseSite>,
    tick: &mut TickState,
    worker: &mut Worker,
    id: usize,
)
    requires
        world.wf(),
        old(worker).ready(),
        rules::holdable(
            rules::turn(
                scene_of(world.tiles@, resources@, old(bases)@),
                old(tick).seen(old(bases)@),
                old(worker)@,
                id as int,
            ).0.stock,
        ),
        rules::turn(
            scene_of(world.tiles@, resources@, old(bases)@),
            old(tick).seen(old(bases)@),
            old(worker)@,
            id as int,
        ).1.bumps matches Some(b) ==> b <= u32::MAX,
    ensures
        (final(tick).seen(final(bases)@), final(worker)@) == rules::turn(
            scene_of(world.tiles@, resources@, old(bases)@),
            old(tick).seen(old(bases)@),
            old(worker)@,
            id as int,
        ),
        same_sites(old(bases)@, final(bases)@),
{
    if worker.program.instructions.len() == 0 {
        return;
    }
    let action = worker.program.instructions[worker.program.pc];
    let effect = act(world, resources, bases, tick, worker, action);
    if effect.done {
        worker.program.pc = (worker.program.pc + 1) % worker.program.instructions.len();
    }
    count_bump(tick, worker, effect.moved, effect.blocked, id, Ghost(bases@));
}

/// Workers that are ready are able to take a turn.
proof fn lemma_able(workers: Seq<Worker>)
    requires
        forall|i: int| 0 <= i < workers.len() ==> (#[trigger] workers[i]).ready(),
    ensures
        laws::workers_able(views(workers)),
{
    let ws = views(workers);
    assert forall|j: int| 0 <= j < ws.len() && (#[trigger] ws[j]).instructions.len() > 0 implies 0
        <= ws[j].pc < ws[j].instructions.len() by {
        assert(workers[j].ready());
    }
}

/// If the counts of workers whose moves can be foiled can go up, they fit after a tick.
proof fn lemma_countable(scene: SceneView, workers: Seq<Worker>, stock: Seq<Seq<int>>)
    requires
        forall|i: int|
            0 <= i < workers.len() ==> (#[trigger] workers[i]).ready() && workers[i].counts_on(),
    ensures
        rules::countable(laws::ticked(scene, views(workers), stock).1),
{
    let ws = views(workers);
    lemma_able(workers);
    laws::lemma_turns_frame(scene, rules::tick_start(ws, stock), ws, ws.len());
    let after = laws::ticked(scene, ws, stock).1;
    assert forall|i: int| 0 <= i < after.len() implies ((#[trigger] after[i]).bumps matches Some(b)
        ==> b <= u32::MAX) by {
        laws::law_bumps_count_foiled_ticks(scene, ws, stock, i);
        assert(ws[i] == workers[i]@);
        assert(workers[i].counts_on());
    }
}

/// Runs one tick. Every worker, in the order of the list, runs one instruction. The bases are
/// stocked and the workers changed at once; the changes to the map are returned, to be made
/// once the tick is over.
pub fn step_workers(
    world: &World,
    resources: &Vec<ResourceNode>,
    bases: &mut Vec<BaseSite>,
    workers: &mut Vec<Worker>,
) -> (commands: Vec<Command>)
    requires
        world.wf(),
        forall|i: int| 0 <= i < old(workers)@.len() ==> (#[trigger] old(workers)@[i]).ready(),
        rules::holdable(
            rules::turns(
                scene_of(world.tiles@, resources@, old(bases)@),
                rules::tick_start(views(old(workers)@), stocks(old(bases)@)),
                views(old(workers)@),
                old(workers)@.len(),
            ).0.stock,
        ),
        rules::countable(
            rules::turns(
                scene_of(world.tiles@, resources@, old(bases)@),
                rules::tick_start(views(old(workers)@), stocks(old(bases)@)),
                views(old(workers)@),
                old(workers)@.len(),
            ).1,
        ),
    ensures
        ({
            let ws = views(old(workers)@);
            let (t, after) = rules::turns(
                scene_of(world.tiles@, resources@, old(bases)@),
                rules::tick_start(ws, stocks(old(bases)@)),
                ws,
                ws.len(),
            );
            &&& views(final(workers)@) == after
            &&& stocks(final(bases)@) == t.stock
            &&& commands@ == t.commands
        }),
        final(bases)@.len() == old(bases)@.len(),
        forall|b: int|
            0 <= b < old(bases)@.len() ==> (#[trigger] final(bases)@[b]).pos == old(bases)@[b].pos,
{
    let ghost ws = views(workers@);
    let ghost scene = scene_of(world.tiles@, resources@, bases@);
    let ghost start = rules::tick_start(ws, stocks(bases@));
    let mut tick = begin_tick(workers);
    assert(tick.seen(bases@) =~= start);
    proof {
        lemma_able(workers@);
    }
    let mut i: usize = 0;
    while i < workers.len()
        invariant
            world.wf(),
            i <= workers@.len(),
            workers@.len() == old(workers)@.len(),
            ws == views(old(workers)@),
            forall|j: int| 0 <= j < ws.len() ==> (#[trigger] old(workers)@[j]).ready(),
            forall|j: int| i <= j < workers@.len() ==> #[trigger] workers@[j] == old(workers)@[j],
            scene == scene_of(world.tiles@, resources@, old(bases)@),
            bases@.len() == old(bases)@.len(),
            forall|b: int|
                0 <= b < bases@.len() ==> (#[trigger] bases@[b]).pos == old(bases)@[b].pos,
            start == rules::tick_start(ws, stocks(old(bases)@)),
            laws::workers_able(ws),
            rules::holdable(laws::ticked(scene, ws, stocks(old(bases)@)).0.stock),
            rules::countable(laws::ticked(scene, ws, stocks(old(bases)@)).1),
            (tick.seen(bases@), views(workers@)) == rules::turns(scene, start, ws, i as nat),
        decreases workers@.len() - i,
    {
        let ghost workers0 = workers@;
        let ghost bases0 = bases@;
        proof {
            assert(workers0[i as int] == old(workers)@[i as int]);
            assert(views(workers0)[i as int] == ws[i as int]);
            assert(scene_of(world.tiles@, resources@, bases0) =~= scene);
            ledger::lemma_holdable_throughout(scene, ws, stocks(old(bases)@), (i + 1) as nat);
            let t = laws::lemma_ticked_worker(scene, ws, stocks(old(bases)@), i as int);
            laws::lemma_turns_frame(scene, start, ws, ws.len());
            assert(laws::ticked(scene, ws, stocks(old(bases)@)).1[i as int] == rules::turn(
                scene,
                t,
                ws[i as int],
                i as int,
            ).1);
        }
        take_turn(world, resources, bases, &mut tick, &mut workers[i], i);
        proof {
            assert(views(workers@) =~= views(workers0).update(i as int, workers@[i as int]@));
        }
        i += 1;
    }
    tick.commands
}

/// What workers see at the beginning of a tick.
fn begin_tick(workers: &Vec<Worker>) -> (tick: TickState)
    ensures
        forall|bases: Seq<BaseSite>| #[trigger]
            tick.seen(bases) == rules::tick_start(views(workers@), stocks(bases)),
{
    let ghost ws = views(workers@);
    let mut claims = TileSet::new();
    let mut occupied = TileSet::new();
    let mut i: usize = 0;
    while i < workers.len()
        invariant
            i <= workers@.len(),
            ws == views(workers@),
            forall|c: Cell| #[trigger]
                claims@.contains(c) <==> exists|j: int|
                    0 <= j < i && rules::reserves(#[trigger] ws[j], c),
            forall|c: Cell| #[trigger]
                occupied@.contains(c) <==> exists|j: int|
                    0 <= j < i && (#[trigger] ws[j]).pos@ == c,
        decreases workers@.len() - i,
    {
        assert(ws[i as int] == workers@[i as int]@);
        if let Some(p) = workers[i].nav.reserved_tile {
            claims.insert(p);
        }
        occupied.insert(workers[i].pos);
        i += 1;
    }
    let tick = TickState { picked: TileSet::new(), claims, occupied, commands: Vec::new() };
    proof {
        assert forall|bases: Seq<BaseSite>| #[trigger]
            tick.seen(bases) == rules::tick_start(ws, stocks(bases)) by {
            assert(tick.claims@ =~= rules::tick_start(ws, stocks(bases)).claims);
            assert(tick.occupied@ =~= rules::tick_start(ws, stocks(bases)).occupied);
        }
    }
    tick
}

/// More items than a base can store of a kind.
const TOO_MANY: u64 = 0x1_0000_0000;

/// How many items of a kind are in a queue, as far as that is no more than a base can store.
fn count_carried(queue: &VecDeque<ResourceKind>, kind: ResourceKind) -> (n: u64)
    ensures
        n == (if inventory::occurrences(queue@, kind) < TOO_MANY {
            inventory::occurrences(queue@, kind) as int
        } else {
            TOO_MANY as int
        }),
{
    let mut n: u64 = 0;
    let mut i: usize = 0;
    assert(queue@.take(0) =~= Seq::<ResourceKind>::empty());
    while i < queue.len()
        invariant
            i <= queue@.len(),
            n == (if inventory::occurrences(queue@.take(i as int), kind) < TOO_MANY {
                inventory::occurrences(queue@.take(i as int), kind) as int
            } else {
                TOO_MANY as int
            }),
        decreases queue@.len() - i,
    {
        proof {
            assert(queue@.take(i + 1) =~= queue@.take(i as int).push(queue@[i as int]));
            inventory::lemma_occurrences_push(queue@.take(i as int), queue@[i as int], kind);
        }
        if queue[i] == kind && n < TOO_MANY {
            n += 1;
        }
        i += 1;
    }
    assert(queue@.take(i as int) =~= queue@);
    n
}

/// True if every base has room for all items of a kind that the workers carry.
spec fn kind_room(bases: Seq<BaseSite>, workers: Seq<Worker>, kind: ResourceKind) -> bool {
    forall|s: int|
        0 <= s < bases.len() ==> (#[trigger] bases[s]).base.stored@[kind.slot()]
            + rules::carried_from(views(workers), 0, kind) <= u32::MAX
}

/// True if every base has room for all items of a kind that the workers carry.
fn kind_fits(bases: &Vec<BaseSite>, workers: &Vec<Worker>, kind: ResourceKind) -> (b: bool)
    ensures
        b == kind_room(bases@, workers@, kind),
{
    let ghost ws = views(workers@);
    let mut n: u64 = 0;
    let mut i: usize = workers.len();
    while i > 0
        invariant
            i <= workers@.len(),
            ws == views(workers@),
            n == (if rules::carried_from(ws, i as int, kind) < TOO_MANY {
                rules::carried_from(ws, i as int, kind) as int
            } else {
                TOO_MANY as int
            }),
        decreases i,
    {
        i -= 1;
        assert(ws[i as int].carried == workers@[i as int].inventory@);
        n += count_carried(&workers[i].inventory.queue, kind);
        if n > TOO_MANY {
            n = TOO_MANY;
        }
    }
    let slot = kind.index();
    let mut j: usize = 0;
    while j < bases.len()
        invariant
            j <= bases@.len(),
            slot == kind.slot(),
            slot < 3,
            ws == views(workers@),
            n == (if rules::carried_from(ws, 0, kind) < TOO_MANY {
                rules::carried_from(ws, 0, kind) as int
            } else {
                TOO_MANY as int
            }),
            forall|s: int|
                0 <= s < j ==> (#[trigger] bases@[s]).base.stored@[kind.slot()]
                    + rules::carried_from(ws, 0, kind) <= u32::MAX,
        decreases bases@.len() - j,
    {
        let site = &bases[j];
        if site.base.stored[slot] as u64 + n > u32::MAX as u64 {
            assert(bases@[j as int].base.stored@[kind.slot()] + rules::carried_from(ws, 0, kind)
                > u32::MAX);
            return false;
        }
        j += 1;
    }
    true
}

/// True if the map is whole, every worker can take its turn and count it if it is foiled, and
/// every base has room for all that is carried. Then a tick can be run, whatever resources there are.
pub fn can_step(world: &World, bases: &Vec<BaseSite>, workers: &Vec<Worker>) -> (b: bool)
    ensures
        b == {
            &&& world.wf()
            &&& forall|i: int|
                0 <= i < workers@.len() ==> (#[trigger] workers@[i]).ready()
                    && workers@[i].counts_on()
            &&& forall|s: int, k: ResourceKind|
                0 <= s < bases@.len() ==> (#[trigger] bases@[s].base.stored@[k.slot()])
                    + rules::carried_from(views(workers@), 0, k) <= u32::MAX
        },
        b ==> forall|resources: Seq<ResourceNode>|
            {
                let (t, after) = #[trigger] rules::turns(
                    scene_of(world.tiles@, resources, bases@),
                    rules::tick_start(views(workers@), stocks(bases@)),
                    views(workers@),
                    workers@.len(),
                );
                rules::holdable(t.stock) && rules::countable(after)
            },
{
    if world.tiles.len() != (GRID_W * GRID_H) as usize {
        return false;
    }
    let mut i: usize = 0;
    while i < workers.len()
        invariant
            i <= workers@.len(),
            forall|j: int|
                0 <= j < i ==> (#[trigger] workers@[j]).ready() && workers@[j].counts_on(),
        decreases workers@.len() - i,
    {
        if !workers[i].is_able() {
            assert(!(workers@[i as int].ready() && workers@[i as int].counts_on()));
            return false;
        }
        i += 1;
    }
    let fits = kind_fits(bases, workers, ResourceKind::Energy) && kind_fits(
        bases,
        workers,
        ResourceKind::Grass,
    ) && kind_fits(bases, workers, ResourceKind::Wood);
    proof {
        if fits {
            let ws = views(workers@);
            let stock = stocks(bases@);
            lemma_able(workers@);
            assert forall|s: int, k: ResourceKind| 0 <= s < stock.len() implies (
            #[trigger] stock[s][k.slot()]) + rules::carried_from(ws, 0, k) <= u32::MAX by {
                assert(bases@[s].base.stored@[k.slot()] + rules::carried_from(ws, 0, k)
                    <= u32::MAX);
            }
            assert forall|resources: Seq<ResourceNode>|
                {
                    let (t, after) = #[trigger] rules::turns(
                        scene_of(world.tiles@, resources, bases@),
                        rules::tick_start(ws, stock),
                        ws,
                        workers@.len(),
                    );
                    rules::holdable(t.stock) && rules::countable(after)
                } by {
                let scene = scene_of(world.tiles@, resources, bases@);
                ledger::law_room_for_all_is_enough(scene, ws, stock);
                lemma_countable(scene, workers@, stock);
            }
            assert forall|s: int, k: ResourceKind|
                0 <= s < bases@.len() implies (#[trigger] bases@[s].base.stored@[k.slot()])
                + rules::carried_from(views(workers@), 0, k) <= u32::MAX by {
                assert(bases@[s].base.stored@[k.slot()] + rules::carried_from(
                    views(workers@),
                    0,
                    k,
                ) <= u32::MAX);
            }
        } else {
            let k = if !kind_room(bases@, workers@, ResourceKind::Energy) {
                ResourceKind::Energy
            } else if !kind_room(bases@, workers@, ResourceKind::Grass) {
                ResourceKind::Grass
            } else {
                ResourceKind::Wood
            };
            let s = choose|s: int|
                0 <= s < bases@.len() && (#[trigger] bases@[s]).base.stored@[k.slot()]
                    + rules::carried_from(views(workers@), 0, k) > u32::MAX;
            assert(bases@[s].base.stored@[k.slot()] + rules::carried_from(views(workers@), 0, k)
                > u32::MAX);
        }
    }
    fits
}

/// What is said of workers, bases and the map is said of the data that they are made of.
pub proof fn law_views_show_the_data(
    tiles: Seq<Terrain>,
    resources: Seq<ResourceNode>,
    bases: Seq<BaseSite>,
    workers: Seq<Worker>,
    i: int,
)
    ensures
        scene_of(tiles, resources, bases).tiles == tiles,
        scene_of(tiles, resources, bases).resources == resources,
        scene_of(tiles, resources, bases).bases.len() == bases.len(),
        stocks(bases).len() == bases.len(),
        views(workers).len() == workers.len(),
        0 <= i < bases.len() ==> {
            &&& scene_of(tiles, resources, bases).bases[i] == bases[i].pos
            &&& stocks(bases)[i].len() == 3
            &&& stocks(bases)[i][0] == bases[i].base.stored@[0]
            &&& stocks(bases)[i][1] == bases[i].base.stored@[1]
            &&& stocks(bases)[i][2] == bases[i].base.stored@[2]
        },
        0 <= i < workers.len() ==> {
            let (v, w) = (views(workers)[i], workers[i]);
            &&& v.pos == w.pos
            &&& v.prev_yaw == w.facing.prev_yaw
            &&& v.yaw == w.facing.current_yaw
            &&& v.instructions == w.program.instructions@
            &&& v.pc == w.program.pc
            &&& v.carried == w.inventory.queue@
            &&& v.plan == w.nav.plan@
            &&& v.reserved == w.nav.reserved_tile
            &&& w.bumps matches Some(b) ==> v.bumps == Some(b.0 as int)
            &&& w.bumps is None ==> v.bumps is None
        },
{
}

} // verus!
