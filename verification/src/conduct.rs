//! What each instruction does, told by what comes of it.

use vstd::prelude::*;
use crate::grid;
use crate::grid::{Cell, Direction, GridPos};
use crate::inventory;
use crate::inventory::ResourceKind;
use crate::laws;
use crate::parser;
use crate::parser::CondExpr;
use crate::program::{Action, Condition, NavQualifier, Target};
use crate::rules;
use crate::rules::{Command, ResourceNode, SceneView, TickView, WorkerView};
use crate::walk;
use crate::world::Terrain;

verus! {

/// True if the instruction that the worker runs next is the given one.
pub open spec fn runs(w: WorkerView, action: Action) -> bool {
    0 <= w.pc < w.instructions.len() && w.instructions[w.pc] == action
}

/// The place after that of the next instruction: the one behind it, or the first.
pub open spec fn following(w: WorkerView) -> int {
    if w.pc + 1 == w.instructions.len() {
        0
    } else {
        w.pc + 1
    }
}

/// The cell next to another.
pub open spec fn ahead(c: Cell, d: Direction) -> Cell {
    match d {
        Direction::North => (c.0, c.1 - 1),
        Direction::South => (c.0, c.1 + 1),
        Direction::East => (c.0 + 1, c.1),
        Direction::West => (c.0 - 1, c.1),
    }
}

/// The yaw of a worker that faces a direction.
pub open spec fn facing(d: Direction) -> int {
    match d {
        Direction::North => 0,
        Direction::West => 1,
        Direction::South => 2,
        Direction::East => -1,
    }
}

/// True of a tile of the map that is not water, not a wall, and that nobody is on.
pub open spec fn is_free(scene: SceneView, t: TickView, c: Cell) -> bool {
    &&& 0 <= c.0 < 20
    &&& 0 <= c.1 < 15
    &&& scene.tiles[c.1 * 20 + c.0] != Terrain::Water
    &&& scene.tiles[c.1 * 20 + c.0] != Terrain::Wall
    &&& !t.occupied.contains(c)
}

/// True of the tiles that a worker wants to go to: those with a resource of the kind that nobody
/// else has claimed, or those with a base.
pub open spec fn wanted(
    scene: SceneView,
    t: TickView,
    w: WorkerView,
    target: Target,
    c: Cell,
) -> bool {
    match target {
        Target::Resource(kind) => {
            &&& exists|i: int|
                0 <= i < scene.resources.len() && (#[trigger] scene.resources[i]).kind == kind
                    && scene.resources[i].pos@ == c
            &&& t.claims.contains(c) ==> (w.reserved matches Some(p) && p@ == c)
        },
        Target::Base => exists|i: int|
            0 <= i < scene.bases.len() && (#[trigger] scene.bases[i])@ == c,
    }
}

/// What is claimed when a worker gives back what it has reserved.
pub open spec fn claims_without(t: TickView, w: WorkerView) -> Set<Cell> {
    match w.reserved {
        Some(p) => t.claims.remove(p@),
        None => t.claims,
    }
}

proof fn lemma_following(w: WorkerView)
    requires
        0 <= w.pc < w.instructions.len(),
    ensures
        rules::pc_advanced(w) == (WorkerView { pc: following(w), ..w }),
{
    let n = w.instructions.len() as int;
    if w.pc + 1 == n {
        vstd::arithmetic::div_mod::lemma_mod_self_0(n);
    } else {
        vstd::arithmetic::div_mod::lemma_small_mod((w.pc + 1) as nat, n as nat);
    }
}

proof fn lemma_ahead(scene: SceneView, t: TickView, c: Cell, d: Direction)
    ensures
        grid::neighbor(c, d) == ahead(c, d),
        d.quarter_turns() == facing(d),
        walk::enterable(scene.tiles, t.occupied, c) == is_free(scene, t, c),
        is_free(scene, t, c) ==> walk::pos_of(c)@ == c,
{
}

/// Waiting does nothing but pass the turn.
pub proof fn law_waiting_does_nothing(scene: SceneView, t: TickView, w: WorkerView, id: int)
    requires
        runs(w, Action::Wait),
    ensures
        rules::turn(scene, t, w, id) == (t, WorkerView { pc: following(w), ..w }),
{
    lemma_following(w);
}

/// A worker without a program does nothing.
pub proof fn law_without_program_nothing_is_done(
    scene: SceneView,
    t: TickView,
    w: WorkerView,
    id: int,
)
    requires
        w.instructions.len() == 0,
    ensures
        rules::turn(scene, t, w, id) == (t, w),
{
}

/// A worker that is told to move faces that way. If the tile there is free it goes there, and
/// leaves its own; if not it stays. Either way it goes on with the next instruction.
pub proof fn law_moving(scene: SceneView, t: TickView, w: WorkerView, id: int, d: Direction)
    requires
        runs(w, Action::Move(d)),
        w.bumps is None,
    ensures
        ({
            let (t1, w1) = rules::turn(scene, t, w, id);
            let dest = ahead(w.pos@, d);
            &&& w1 == (WorkerView { pos: w1.pos, yaw: facing(d), pc: following(w), ..w })
            &&& if is_free(scene, t, dest) {
                &&& w1.pos@ == dest
                &&& t1 == (TickView { occupied: t.occupied.remove(w.pos@).insert(dest), ..t })
            } else {
                w1.pos == w.pos && t1 == t
            }
        }),
{
    let dest = grid::neighbor(w.pos@, d);
    lemma_ahead(scene, t, w.pos@, d);
    lemma_ahead(scene, t, dest, d);
    let o = rules::after_action(scene, t, w, Action::Move(d));
    lemma_following(o.worker);
}

/// Counting of foiled moves, told by what the worker would do without a count: one that moves
/// starts its count anew; one that was to move and did not counts one more, and at ten it lets go
/// of what it has reserved and of all that it carries, and is taken off the map.
pub proof fn law_foiled_moves_are_counted(
    scene: SceneView,
    t: TickView,
    w: WorkerView,
    id: int,
    b: int,
)
    requires
        w.bumps == Some(b),
        0 <= w.pc < w.instructions.len(),
        w.instructions[w.pc] is Move || w.instructions[w.pc] is NavigateTo && w.plan.len() > 0,
    ensures
        ({
            let (t0, w0) = rules::turn(scene, t, WorkerView { bumps: None, ..w }, id);
            let (t1, w1) = rules::turn(scene, t, w, id);
            if w0.pos@ != w.pos@ {
                t1 == t0 && w1 == (WorkerView { bumps: Some(0), ..w0 })
            } else if b + 1 < 10 {
                t1 == t0 && w1 == (WorkerView { bumps: Some(b + 1), ..w0 })
            } else {
                let n = t0.commands.len() as int;
                let k = w.carried.len() as int;
                &&& w1 == (WorkerView {
                    bumps: Some(b + 1),
                    carried: Seq::empty(),
                    reserved: None,
                    ..w0
                })
                &&& t1 == (TickView {
                    claims: claims_without(t0, w0),
                    commands: t1.commands,
                    ..t0
                })
                &&& t1.commands.len() == n + k + 1
                &&& t1.commands.take(n) == t0.commands
                &&& forall|i: int|
                    0 <= i < k ==> #[trigger] t1.commands[n + i] == Command::SpawnResource(
                        ResourceNode { kind: w.carried[i], pos: w.pos },
                    )
                &&& t1.commands[n + k] == Command::DespawnWorker(id as usize)
            }
        }),
{
    let free = WorkerView { bumps: None, ..w };
    let action = w.instructions[w.pc];
    let o = rules::after_action(scene, t, w, action);
    let o0 = rules::after_action(scene, t, free, action);
    match action {
        Action::Move(d) => {
            lemma_moved_means_elsewhere(w.pos@, d);
            let dest = grid::neighbor(w.pos@, d);
            lemma_ahead(scene, t, dest, d);
        },
        Action::NavigateTo(_, target) => {
            lemma_navigate_without_count(scene, t, w, target);
            lemma_navigate_moves(scene, t, w, target);
            laws::lemma_navigate(scene, t, w, target);
        },
        _ => {},
    }
    assert(o0.worker == (WorkerView { bumps: None, ..o.worker }));
    assert(o0.tick == o.tick && o0.moved == o.moved && o0.done == o.done);
    let (t1, w1) = rules::turn(scene, t, w, id);
    let (t0, w0) = rules::turn(scene, t, free, id);
    assert(o.moved <==> o.worker.pos@ != w.pos@);
    if w0.pos@ == w.pos@ && b + 1 >= 10 {
        assert(w0.carried == w.carried);
        assert(t1.commands.take(t0.commands.len() as int) =~= t0.commands);
    }
}

/// A neighbour is another cell.
proof fn lemma_moved_means_elsewhere(c: Cell, d: Direction)
    ensures
        grid::neighbor(c, d) != c,
{
}

/// Stepping does not look at the count.
proof fn lemma_step_without_count(scene: SceneView, t: TickView, w: WorkerView, d: Direction)
    ensures
        ({
            let (t1, w1, moved) = rules::stepped(scene, t, w, d);
            let (t0, w0, moved0) = rules::stepped(scene, t, WorkerView { bumps: None, ..w }, d);
            &&& t0 == t1
            &&& w0 == (WorkerView { bumps: None, ..w1 })
            &&& moved0 == moved
            &&& moved == (w1.pos@ != w.pos@)
            &&& !moved ==> w1.pos == w.pos
            &&& w1.bumps == w.bumps
        }),
{
    lemma_moved_means_elsewhere(w.pos@, d);
    let dest = grid::neighbor(w.pos@, d);
    lemma_ahead(scene, t, dest, d);
}

/// Stepping aside does not look at the count.
proof fn lemma_sidestep_without_count(
    scene: SceneView,
    t: TickView,
    w: WorkerView,
    bumped: Direction,
    r: nat,
)
    ensures
        ({
            let free = WorkerView { bumps: None, ..w };
            let (t1, w1, moved) = rules::sidestepped(scene, t, w, bumped, r);
            let (t0, w0, moved0) = rules::sidestepped(scene, t, free, bumped, r);
            &&& t0 == t1
            &&& w0 == (WorkerView { bumps: None, ..w1 })
            &&& moved0 == moved
            &&& moved == (w1.pos@ != w.pos@)
            &&& w1.bumps == w.bumps
        }),
    decreases 4 - r,
{
    let free = WorkerView { bumps: None, ..w };
    if r < 4 {
        if rules::direction_at(r) == bumped {
            lemma_sidestep_without_count(scene, t, w, bumped, r + 1);
        } else {
            let d = rules::direction_at(r);
            lemma_step_without_count(scene, t, w, d);
            let (t1, w1, moved) = rules::stepped(scene, t, w, d);
            if !moved {
                lemma_sidestep_without_count(scene, t1, w1, bumped, r + 1);
                let (t0, w0, _) = rules::stepped(scene, t, free, d);
                assert(w0 == (WorkerView { bumps: None, ..w1 }));
            }
        }
    }
}

/// Going to a target does not look at the count.
proof fn lemma_navigate_without_count(
    scene: SceneView,
    t: TickView,
    w: WorkerView,
    target: Target,
)
    ensures
        ({
            let free = WorkerView { bumps: None, ..w };
            let o = rules::after_navigate(scene, t, w, target);
            let o0 = rules::after_navigate(scene, t, free, target);
            &&& o0.tick == o.tick
            &&& o0.worker == (WorkerView { bumps: None, ..o.worker })
            &&& o0.moved == o.moved
            &&& o0.blocked == o.blocked
            &&& o0.done == o.done
        }),
{
    let free = WorkerView { bumps: None, ..w };
    let (t1, w1) = rules::planned(scene, t, w, target);
    let (t0, w0) = rules::planned(scene, t, free, target);
    assert(w0 == (WorkerView { bumps: None, ..w1 }) && t0 == t1);
    if w1.plan.len() > 0 {
        let d = w1.plan[0];
        lemma_step_without_count(scene, t1, w1, d);
        let (t2, w2, moved) = rules::stepped(scene, t1, w1, d);
        if !moved {
            let alt = rules::plan_for(
                scene,
                rules::released(t2.claims, w2.reserved),
                t2.occupied.remove(w2.pos@),
                w2.pos,
                target,
            );
            let (t3, w3) = rules::with_plan(t2, w2, target, alt);
            lemma_sidestep_without_count(scene, t3, w3, d, 0);
            let v2 = WorkerView { bumps: None, ..w2 };
            assert(rules::with_plan(t2, v2, target, alt).1 == (WorkerView { bumps: None, ..w3 }));
        }
    }
}

/// A worker with a plan moves, or a move of it was foiled.
proof fn lemma_navigate_moves(scene: SceneView, t: TickView, w: WorkerView, target: Target)
    requires
        w.plan.len() > 0,
    ensures
        ({
            let o = rules::after_navigate(scene, t, w, target);
            &&& o.moved == (o.worker.pos@ != w.pos@)
            &&& o.moved || o.blocked
            &&& o.worker.pos@ == w.pos@ ==> o.worker.pos == w.pos
            &&& o.worker.carried == w.carried
        }),
{
    let d = w.plan[0];
    lemma_step_without_count(scene, t, w, d);
    let (t2, w2, moved) = rules::stepped(scene, t, w, d);
    if !moved {
        let alt = rules::plan_for(
            scene,
            rules::released(t2.claims, w2.reserved),
            t2.occupied.remove(w2.pos@),
            w2.pos,
            target,
        );
        let (t3, w3) = rules::with_plan(t2, w2, target, alt);
        lemma_sidestep_without_count(scene, t3, w3, d, 0);
    }
    laws::lemma_navigate(scene, t, w, target);
}

/// Other instructions do not look at the count, and leave it alone.
pub proof fn law_only_moves_are_counted(scene: SceneView, t: TickView, w: WorkerView, id: int)
    requires
        0 <= w.pc < w.instructions.len(),
        !(w.instructions[w.pc] is Move) && !(w.instructions[w.pc] is NavigateTo),
    ensures
        ({
            let (t0, w0) = rules::turn(scene, t, WorkerView { bumps: None, ..w }, id);
            rules::turn(scene, t, w, id) == (t0, WorkerView { bumps: w.bumps, ..w0 })
        }),
{
}

/// The place of the first node that a pickup takes.
proof fn lemma_pickup_from(
    resources: Seq<ResourceNode>,
    pos: GridPos,
    filter: Option<ResourceKind>,
    i: int,
)
    requires
        0 <= i <= resources.len(),
    ensures
        match rules::pickup_from(resources, pos, filter, i) {
            Some(j) => {
                &&& i <= j < resources.len()
                &&& fits(resources[j], pos, filter)
                &&& forall|k: int| i <= k < j ==> !fits(#[trigger] resources[k], pos, filter)
            },
            None => forall|k: int|
                i <= k < resources.len() ==> !fits(#[trigger] resources[k], pos, filter),
        },
    decreases resources.len() - i,
{
    if i < resources.len() {
        lemma_pickup_from(resources, pos, filter, i + 1);
    }
}

/// True of a node that lies at a position and is of the kind asked for, if one is asked for.
pub open spec fn fits(node: ResourceNode, pos: GridPos, filter: Option<ResourceKind>) -> bool {
    &&& node.pos.x == pos.x
    &&& node.pos.y == pos.y
    &&& filter matches Some(kind) ==> node.kind == kind
}

/// A worker that picks up takes the first node on its tile that is of the kind asked for, and
/// carries it last of all. Whoever carries two already puts the older of them down. The node is
/// taken off the map.
pub proof fn law_picking_up_takes_what_is_asked_for(
    scene: SceneView,
    t: TickView,
    w: WorkerView,
    id: int,
    filter: Option<ResourceKind>,
    i: int,
) -> (j: int)
    requires
        runs(w, Action::Pickup(filter)),
        !t.picked.contains(w.pos@),
        0 <= i < scene.resources.len() <= usize::MAX,
        fits(scene.resources[i], w.pos, filter),
    ensures
        0 <= j <= i,
        fits(scene.resources[j], w.pos, filter),
        forall|k: int| 0 <= k < j ==> !fits(#[trigger] scene.resources[k], w.pos, filter),
        ({
            let (t1, w1) = rules::turn(scene, t, w, id);
            let node = scene.resources[j];
            let n = t.commands.len() as int;
            &&& w1.carried.len() > 0
            &&& w1.carried.last() == node.kind
            &&& t1.commands.take(n) == t.commands
            &&& t1.commands[n] == Command::DespawnResource(j as usize)
            &&& if w.carried.len() < 2 {
                &&& w1.carried.drop_last() == w.carried
                &&& t1.commands.len() == n + 1
            } else {
                &&& w1.carried.drop_last() == w.carried.drop_first()
                &&& t1.commands.len() == n + 2
                &&& t1.commands[n + 1] == Command::SpawnResource(
                    ResourceNode { kind: w.carried[0], pos: w.pos },
                )
            }
        }),
{
    lemma_pickup_from(scene.resources, w.pos, filter, 0);
    let j = rules::pickup_from(scene.resources, w.pos, filter, 0)->0;
    let (t1, w1) = rules::turn(scene, t, w, id);
    assert(t1.commands.take(t.commands.len() as int) =~= t.commands);
    if w.carried.len() < 2 {
        assert(w1.carried.drop_last() =~= w.carried);
    } else {
        assert(w1.carried.drop_last() =~= w.carried.drop_first());
    }
    j
}

/// Where there is nothing that is asked for, or somebody has picked up something during the tick,
/// nothing is picked up.
pub proof fn law_nothing_else_is_picked_up(
    scene: SceneView,
    t: TickView,
    w: WorkerView,
    id: int,
    filter: Option<ResourceKind>,
)
    requires
        runs(w, Action::Pickup(filter)),
        t.picked.contains(w.pos@) || forall|i: int|
            0 <= i < scene.resources.len() ==> !fits(#[trigger] scene.resources[i], w.pos, filter),
    ensures
        rules::turn(scene, t, w, id).1.carried == w.carried,
        rules::turn(scene, t, w, id).0.commands == t.commands,
{
    lemma_pickup_from(scene.resources, w.pos, filter, 0);
}

/// Whatever a pickup finds, nobody else picks up anything from the tile during the tick, a
/// reservation of the tile is over, and nothing else changes but what is carried.
pub proof fn law_picking_up_closes_the_tile(
    scene: SceneView,
    t: TickView,
    w: WorkerView,
    id: int,
    filter: Option<ResourceKind>,
)
    requires
        runs(w, Action::Pickup(filter)),
    ensures
        ({
            let (t1, w1) = rules::turn(scene, t, w, id);
            &&& t1 == (TickView { picked: t.picked.insert(w.pos@), commands: t1.commands, ..t })
            &&& w1 == (WorkerView {
                carried: w1.carried,
                reserved: if w.reserved == Some(w.pos) {
                    None
                } else {
                    w.reserved
                },
                pc: following(w),
                ..w
            })
        }),
{
    let o = rules::after_action(scene, t, w, Action::Pickup(filter));
    lemma_following(o.worker);
}

/// The first base at a position.
proof fn lemma_base_from(bases: Seq<GridPos>, pos: GridPos, i: int)
    requires
        0 <= i <= bases.len(),
    ensures
        match rules::base_from(bases, pos, i) {
            Some(b) => {
                &&& i <= b < bases.len()
                &&& bases[b]@ == pos@
                &&& forall|k: int| i <= k < b ==> (#[trigger] bases[k])@ != pos@
            },
            None => forall|k: int| i <= k < bases.len() ==> (#[trigger] bases[k])@ != pos@,
        },
    decreases bases.len() - i,
{
    if i < bases.len() {
        lemma_base_from(bases, pos, i + 1);
    }
}

/// A worker that drops on a base hands over all that it carries: the first base there has as many
/// more of each kind as were carried, and no other base changes.
pub proof fn law_dropping_on_a_base_hands_over(
    scene: SceneView,
    t: TickView,
    w: WorkerView,
    id: int,
    b: int,
)
    requires
        runs(w, Action::Drop),
        0 <= b < scene.bases.len() == t.stock.len(),
        scene.bases[b]@ == w.pos@,
        forall|k: int| 0 <= k < b ==> (#[trigger] scene.bases[k])@ != w.pos@,
    ensures
        ({
            let (t1, w1) = rules::turn(scene, t, w, id);
            let load = w.carried;
            &&& w1 == (WorkerView { carried: Seq::empty(), pc: following(w), ..w })
            &&& t1 == (TickView { stock: t1.stock, ..t })
            &&& t1.stock.len() == t.stock.len()
            &&& forall|k: int| 0 <= k < t.stock.len() && k != b ==> t1.stock[k] == t.stock[k]
            &&& t1.stock[b].len() == 3
            &&& t1.stock[b][0] == t.stock[b][0] + load.filter(
                |k: ResourceKind| k == ResourceKind::Energy,
            ).len()
            &&& t1.stock[b][1] == t.stock[b][1] + load.filter(
                |k: ResourceKind| k == ResourceKind::Grass,
            ).len()
            &&& t1.stock[b][2] == t.stock[b][2] + load.filter(
                |k: ResourceKind| k == ResourceKind::Wood,
            ).len()
        }),
{
    lemma_base_from(scene.bases, w.pos, 0);
    let f = rules::base_from(scene.bases, w.pos, 0)->0;
    assert(f == b) by {
        if f < b {
            assert(scene.bases[f]@ != w.pos@);
        }
    }
    assert(scene.bases[b] == w.pos);
    let o = rules::after_action(scene, t, w, Action::Drop);
    lemma_following(o.worker);
    inventory::law_occurrences_are_counted(w.carried, ResourceKind::Energy);
    inventory::law_occurrences_are_counted(w.carried, ResourceKind::Grass);
    inventory::law_occurrences_are_counted(w.carried, ResourceKind::Wood);
}

/// A worker that drops elsewhere keeps what it carries.
pub proof fn law_dropping_elsewhere_does_nothing(
    scene: SceneView,
    t: TickView,
    w: WorkerView,
    id: int,
)
    requires
        runs(w, Action::Drop),
        forall|k: int| 0 <= k < scene.bases.len() ==> (#[trigger] scene.bases[k])@ != w.pos@,
    ensures
        rules::turn(scene, t, w, id) == (t, WorkerView { pc: following(w), ..w }),
{
    lemma_base_from(scene.bases, w.pos, 0);
    lemma_following(w);
}

/// A jump leads to its target, counted round the end of the program. One with a condition does so
/// only if an item of the kind is carried, or only if none is.
pub proof fn law_jumping(scene: SceneView, t: TickView, w: WorkerView, id: int)
    requires
        0 <= w.pc < w.instructions.len(),
    ensures
        ({
            let there = |to: usize| to as int % w.instructions.len() as int;
            let carries = |kind: ResourceKind|
                exists|i: int| 0 <= i < w.carried.len() && #[trigger] w.carried[i] == kind;
            let pc = rules::turn(scene, t, w, id).1.pc;
            match w.instructions[w.pc] {
                Action::Jump(to) => pc == there(to),
                Action::JumpIf(Condition::Carrying(kind), to) => pc == (if carries(kind) {
                    there(to)
                } else {
                    following(w)
                }),
                Action::JumpUnless(Condition::Carrying(kind), to) => pc == (if carries(kind) {
                    following(w)
                } else {
                    there(to)
                }),
                _ => true,
            }
        }),
        w.instructions[w.pc] is Jump || w.instructions[w.pc] is JumpIf
            || w.instructions[w.pc] is JumpUnless ==> rules::turn(scene, t, w, id) == (
            t,
            WorkerView { pc: rules::turn(scene, t, w, id).1.pc, ..w },
        ),
{
    lemma_following(w);
}

/// The jump at the head of a block is taken exactly when the condition, as it is written, does not
/// hold: with `not`, when an item of the kind is carried; without, when none is.
pub proof fn law_heads_of_blocks_jump_when_the_condition_fails(
    scene: SceneView,
    t: TickView,
    w: WorkerView,
    id: int,
    kind: ResourceKind,
    negated: bool,
    to: usize,
)
    requires
        runs(
            w,
            parser::skip_jump(
                CondExpr { condition: Condition::Carrying(kind), negated },
            ).retargeted(to),
        ),
    ensures
        ({
            let carries = exists|i: int|
                0 <= i < w.carried.len() && #[trigger] w.carried[i] == kind;
            rules::turn(scene, t, w, id).1.pc == (if carries == negated {
                to as int % w.instructions.len() as int
            } else {
                following(w)
            })
        }),
{
    law_jumping(scene, t, w, id);
}

/// The cells that a target stands for are those that the worker wants to go to.
proof fn lemma_wanted(scene: SceneView, t: TickView, w: WorkerView, target: Target)
    ensures
        forall|c: Cell| #[trigger]
            rules::target_cells(scene, rules::released(t.claims, w.reserved), target).contains(c)
                == wanted(scene, t, w, target, c),
        rules::released(t.claims, w.reserved) == claims_without(t, w),
{
}

/// A resource of a kind stands for the tiles on which one of that kind lies and that nobody has
/// claimed, and the base for the tiles on which one stands.
pub proof fn law_targets_are_what_they_are_called(
    scene: SceneView,
    claims: Set<Cell>,
    kind: ResourceKind,
    c: Cell,
)
    ensures
        rules::target_cells(scene, claims, Target::Resource(kind)).contains(c) <==> !claims.contains(
            c,
        ) && exists|i: int|
            0 <= i < scene.resources.len() && (#[trigger] scene.resources[i]).kind == kind
                && scene.resources[i].pos.x == c.0 && scene.resources[i].pos.y == c.1,
        rules::target_cells(scene, claims, Target::Base).contains(c) <==> exists|i: int|
            0 <= i < scene.bases.len() && (#[trigger] scene.bases[i]).x == c.0 && scene.bases[i].y
                == c.1,
{
}

/// Where a worker has set out for one of the tiles that it wants to go to: with a plan, and with
/// the tile claimed if it is for a resource.
pub open spec fn set_out(t: TickView, w: WorkerView, target: Target, plan: Seq<Direction>) -> (
    TickView,
    WorkerView,
) {
    let goal = grid::walk_end(w.pos@, plan);
    match target {
        Target::Resource(_) => (
            TickView { claims: claims_without(t, w).insert(goal), ..t },
            WorkerView {
                plan,
                reserved: Some(GridPos { x: goal.0 as i32, y: goal.1 as i32 }),
                ..w
            },
        ),
        Target::Base => (
            TickView { claims: claims_without(t, w), ..t },
            WorkerView { plan, reserved: None, ..w },
        ),
    }
}

/// True if a walk leads over free ground to a tile that the worker wants to go to, and no other
/// that does comes before it: none is shorter, nor as short and first in the order of directions.
pub open spec fn is_best_way(
    scene: SceneView,
    t: TickView,
    w: WorkerView,
    target: Target,
    around: Set<Cell>,
    plan: Seq<Direction>,
) -> bool {
    &&& walk::open_walk(scene.tiles, around, w.pos@, plan)
    &&& wanted(scene, t, w, target, grid::walk_end(w.pos@, plan))
    &&& forall|v: Seq<Direction>| #[trigger]
        walk::open_walk(scene.tiles, around, w.pos@, v) && wanted(
            scene,
            t,
            w,
            target,
            grid::walk_end(w.pos@, v),
        ) ==> plan.len() <= v.len() && grid::walk_rank(plan) <= grid::walk_rank(v)
}

/// Where there is a way, the best one is planned.
proof fn lemma_best_way(
    scene: SceneView,
    t: TickView,
    w: WorkerView,
    target: Target,
    around: Set<Cell>,
    v: Seq<Direction>,
)
    requires
        walk::open_walk(scene.tiles, around, w.pos@, v),
        wanted(scene, t, w, target, grid::walk_end(w.pos@, v)),
    ensures
        is_best_way(
            scene,
            t,
            w,
            target,
            around,
            rules::plan_for(scene, claims_without(t, w), around, w.pos, target),
        ),
{
    let targets = rules::target_cells(scene, claims_without(t, w), target);
    let plan = rules::plan_for(scene, claims_without(t, w), around, w.pos, target);
    lemma_wanted(scene, t, w, target);
    assert(targets.contains(grid::walk_end(w.pos@, v)));
    laws::law_plan_is_shortest(scene.tiles, around, w.pos@, targets, v);
    assert forall|u: Seq<Direction>| #[trigger]
        walk::open_walk(scene.tiles, around, w.pos@, u) && wanted(
            scene,
            t,
            w,
            target,
            grid::walk_end(w.pos@, u),
        ) implies plan.len() <= u.len() && grid::walk_rank(plan) <= grid::walk_rank(u) by {
        assert(targets.contains(grid::walk_end(w.pos@, u)));
        laws::law_plan_is_shortest(scene.tiles, around, w.pos@, targets, u);
    }
    assert(targets.contains(grid::walk_end(w.pos@, plan)));
}

/// Where there is no way, or the worker is where it wants to go, there is no plan.
proof fn lemma_no_way(
    scene: SceneView,
    t: TickView,
    w: WorkerView,
    target: Target,
    around: Set<Cell>,
)
    requires
        wanted(scene, t, w, target, w.pos@) || forall|v: Seq<Direction>|
            #[trigger] walk::open_walk(scene.tiles, around, w.pos@, v) ==> !wanted(
                scene,
                t,
                w,
                target,
                grid::walk_end(w.pos@, v),
            ),
    ensures
        rules::plan_for(scene, claims_without(t, w), around, w.pos, target).len() == 0,
{
    let plan = rules::plan_for(scene, claims_without(t, w), around, w.pos, target);
    let stay = Seq::<Direction>::empty();
    lemma_wanted(scene, t, w, target);
    if wanted(scene, t, w, target, w.pos@) {
        assert(walk::open_walk(scene.tiles, around, w.pos@, stay));
        assert(grid::walk_end(w.pos@, stay) == w.pos@);
        lemma_best_way(scene, t, w, target, around, stay);
    }
}

/// A worker without a plan that goes to a target, and is not there yet, takes the best way and
/// does as if it had had that plan before.
pub proof fn law_going_takes_the_best_way(
    scene: SceneView,
    t: TickView,
    w: WorkerView,
    id: int,
    q: NavQualifier,
    target: Target,
    v: Seq<Direction>,
) -> (plan: Seq<Direction>)
    requires
        runs(w, Action::NavigateTo(q, target)),
        w.plan.len() == 0,
        !wanted(scene, t, w, target, w.pos@),
        walk::open_walk(scene.tiles, Set::empty(), w.pos@, v),
        wanted(scene, t, w, target, grid::walk_end(w.pos@, v)),
    ensures
        plan.len() > 0,
        is_best_way(scene, t, w, target, Set::empty(), plan),
        ({
            let (t1, w1) = set_out(t, w, target, plan);
            rules::turn(scene, t, w, id) == rules::turn(scene, t1, w1, id)
        }),
{
    let plan = rules::plan_for(scene, claims_without(t, w), Set::empty(), w.pos, target);
    lemma_wanted(scene, t, w, target);
    lemma_best_way(scene, t, w, target, Set::empty(), v);
    if plan.len() == 0 {
        assert(grid::walk_end(w.pos@, plan) == w.pos@);
    }
    let (t1, w1) = set_out(t, w, target, plan);
    assert(rules::planned(scene, t, w, target) == (t1, w1));
    assert(rules::planned(scene, t1, w1, target) == (t1, w1));
    plan
}

/// A worker that is where it wants to go, or to whom no way is open, goes on with the next
/// instruction; it has nothing reserved.
pub proof fn law_going_ends_at_the_target_or_without_a_way(
    scene: SceneView,
    t: TickView,
    w: WorkerView,
    id: int,
    q: NavQualifier,
    target: Target,
)
    requires
        runs(w, Action::NavigateTo(q, target)),
        w.plan.len() == 0,
        wanted(scene, t, w, target, w.pos@) || forall|v: Seq<Direction>|
            #[trigger] walk::open_walk(scene.tiles, Set::empty(), w.pos@, v) ==> !wanted(
                scene,
                t,
                w,
                target,
                grid::walk_end(w.pos@, v),
            ),
    ensures
        rules::turn(scene, t, w, id) == (
            TickView { claims: claims_without(t, w), ..t },
            WorkerView { reserved: None, pc: following(w), ..w },
        ),
{
    lemma_wanted(scene, t, w, target);
    lemma_no_way(scene, t, w, target, Set::empty());
    let (t1, w1) = rules::planned(scene, t, w, target);
    assert(w1.plan =~= w.plan);
    lemma_following(w1);
}

/// A worker with a plan takes the next step of it, if the tile there is free. The instruction is
/// done with the last step.
pub proof fn law_following_a_plan(
    scene: SceneView,
    t: TickView,
    w: WorkerView,
    id: int,
    q: NavQualifier,
    target: Target,
)
    requires
        runs(w, Action::NavigateTo(q, target)),
        w.plan.len() > 0,
        w.bumps is None,
        is_free(scene, t, ahead(w.pos@, w.plan[0])),
    ensures
        ({
            let (t1, w1) = rules::turn(scene, t, w, id);
            let dest = ahead(w.pos@, w.plan[0]);
            &&& w1.pos@ == dest
            &&& w1 == (WorkerView {
                pos: w1.pos,
                yaw: facing(w.plan[0]),
                plan: w.plan.drop_first(),
                pc: if w.plan.len() == 1 {
                    following(w)
                } else {
                    w.pc
                },
                ..w
            })
            &&& t1 == (TickView { occupied: t.occupied.remove(w.pos@).insert(dest), ..t })
        }),
{
    let d = w.plan[0];
    let dest = grid::neighbor(w.pos@, d);
    lemma_ahead(scene, t, w.pos@, d);
    lemma_ahead(scene, t, dest, d);
    let o = rules::after_action(scene, t, w, Action::NavigateTo(q, target));
    lemma_following(o.worker);
}

/// A worker whose planned step is foiled stays, and takes up the best way around all others, if
/// there is one. It remains at the instruction.
pub proof fn law_foiled_workers_look_for_a_way_around(
    scene: SceneView,
    t: TickView,
    w: WorkerView,
    id: int,
    q: NavQualifier,
    target: Target,
    v: Seq<Direction>,
) -> (plan: Seq<Direction>)
    requires
        runs(w, Action::NavigateTo(q, target)),
        w.plan.len() > 0,
        w.bumps is None,
        !is_free(scene, t, ahead(w.pos@, w.plan[0])),
        !wanted(scene, t, w, target, w.pos@),
        walk::open_walk(scene.tiles, t.occupied.remove(w.pos@), w.pos@, v),
        wanted(scene, t, w, target, grid::walk_end(w.pos@, v)),
    ensures
        plan.len() > 0,
        is_best_way(scene, t, w, target, t.occupied.remove(w.pos@), plan),
        ({
            let (t1, w1) = set_out(t, w, target, plan);
            rules::turn(scene, t, w, id) == (t1, WorkerView { yaw: facing(w.plan[0]), ..w1 })
        }),
{
    let around = t.occupied.remove(w.pos@);
    let d = w.plan[0];
    lemma_ahead(scene, t, w.pos@, d);
    lemma_ahead(scene, t, grid::neighbor(w.pos@, d), d);
    let plan = rules::plan_for(scene, claims_without(t, w), around, w.pos, target);
    lemma_wanted(scene, t, w, target);
    lemma_best_way(scene, t, w, target, around, v);
    if plan.len() == 0 {
        assert(grid::walk_end(w.pos@, plan) == w.pos@);
    }
    plan
}

/// The first direction in the order north, south, east, west, but for one, in which the tile is
/// free.
pub open spec fn way_out(scene: SceneView, t: TickView, c: Cell, bumped: Direction) -> Option<
    Direction,
> {
    if bumped != Direction::North && is_free(scene, t, ahead(c, Direction::North)) {
        Some(Direction::North)
    } else if bumped != Direction::South && is_free(scene, t, ahead(c, Direction::South)) {
        Some(Direction::South)
    } else if bumped != Direction::East && is_free(scene, t, ahead(c, Direction::East)) {
        Some(Direction::East)
    } else if bumped != Direction::West && is_free(scene, t, ahead(c, Direction::West)) {
        Some(Direction::West)
    } else {
        None
    }
}

/// Stepping aside, all told.
proof fn lemma_sidestepped(scene: SceneView, t: TickView, w: WorkerView, bumped: Direction)
    ensures
        rules::sidestepped(scene, t, w, bumped, 0) == (match way_out(scene, t, w.pos@, bumped) {
            Some(d) => (
                TickView {
                    occupied: t.occupied.remove(w.pos@).insert(ahead(w.pos@, d)),
                    ..t
                },
                WorkerView { pos: walk::pos_of(ahead(w.pos@, d)), yaw: facing(d), ..w },
                true,
            ),
            None => (
                t,
                WorkerView {
                    yaw: if bumped == Direction::West {
                        facing(Direction::East)
                    } else {
                        facing(Direction::West)
                    },
                    ..w
                },
                false,
            ),
        }),
{
    reveal_with_fuel(rules::sidestepped, 5);
    lemma_ahead(scene, t, w.pos@, Direction::North);
    lemma_ahead(scene, t, w.pos@, Direction::South);
    lemma_ahead(scene, t, w.pos@, Direction::East);
    lemma_ahead(scene, t, w.pos@, Direction::West);
    lemma_ahead(scene, t, ahead(w.pos@, Direction::North), Direction::North);
    lemma_ahead(scene, t, ahead(w.pos@, Direction::South), Direction::North);
    lemma_ahead(scene, t, ahead(w.pos@, Direction::East), Direction::North);
    lemma_ahead(scene, t, ahead(w.pos@, Direction::West), Direction::North);
}

/// A worker whose planned step is foiled and that finds no way around gives up its plan and steps
/// aside, to the first free tile in the order north, south, east, west; where none is, it stays.
/// It remains at the instruction.
pub proof fn law_foiled_workers_step_aside(
    scene: SceneView,
    t: TickView,
    w: WorkerView,
    id: int,
    q: NavQualifier,
    target: Target,
)
    requires
        runs(w, Action::NavigateTo(q, target)),
        w.plan.len() > 0,
        w.bumps is None,
        !is_free(scene, t, ahead(w.pos@, w.plan[0])),
        wanted(scene, t, w, target, w.pos@) || forall|v: Seq<Direction>|
            #[trigger] walk::open_walk(scene.tiles, t.occupied.remove(w.pos@), w.pos@, v)
                ==> !wanted(scene, t, w, target, grid::walk_end(w.pos@, v)),
    ensures
        ({
            let (t1, w1) = rules::turn(scene, t, w, id);
            &&& w1 == (WorkerView {
                pos: w1.pos,
                yaw: w1.yaw,
                plan: Seq::empty(),
                reserved: None,
                ..w
            })
            &&& t1 == (TickView {
                claims: claims_without(t, w),
                occupied: t1.occupied,
                ..t
            })
            &&& match way_out(scene, t, w.pos@, w.plan[0]) {
                Some(d) => {
                    &&& w1.pos@ == ahead(w.pos@, d)
                    &&& w1.yaw == facing(d)
                    &&& t1.occupied == t.occupied.remove(w.pos@).insert(ahead(w.pos@, d))
                },
                None => w1.pos == w.pos && t1.occupied == t.occupied,
            }
        }),
{
    let around = t.occupied.remove(w.pos@);
    let d = w.plan[0];
    lemma_ahead(scene, t, w.pos@, d);
    lemma_ahead(scene, t, grid::neighbor(w.pos@, d), d);
    lemma_wanted(scene, t, w, target);
    lemma_no_way(scene, t, w, target, around);
    let alt = rules::plan_for(scene, claims_without(t, w), around, w.pos, target);
    assert(alt =~= Seq::<Direction>::empty());
    let turned = WorkerView { yaw: facing(d), ..w };
    let (t1, w1) = rules::with_plan(t, turned, target, alt);
    lemma_sidestepped(scene, t1, w1, d);
    if let Some(e) = way_out(scene, t1, w.pos@, d) {
        lemma_ahead(scene, t1, ahead(w.pos@, e), e);
    }
    assert(way_out(scene, t1, w.pos@, d) == way_out(scene, t, w.pos@, d));
}

/// A worker that has just set out for a resource of a kind has reserved a tile on which one of
/// that kind lies, and which nobody else has claimed.
pub proof fn law_reservations_are_of_the_kind_asked_for(
    scene: SceneView,
    t: TickView,
    w: WorkerView,
    id: int,
    q: NavQualifier,
    kind: ResourceKind,
    p: GridPos,
)
    requires
        runs(w, Action::NavigateTo(q, Target::Resource(kind))),
        w.plan.len() == 0,
        rules::turn(scene, t, w, id).1.reserved == Some(p),
    ensures
        exists|i: int|
            0 <= i < scene.resources.len() && (#[trigger] scene.resources[i]).kind == kind
                && scene.resources[i].pos@ == p@,
        t.claims.contains(p@) ==> w.reserved == Some(p),
{
    let target = Target::Resource(kind);
    let (t1, w1) = rules::planned(scene, t, w, target);
    lemma_wanted(scene, t, w, target);
    laws::lemma_best_plan(
        scene.tiles,
        Set::empty(),
        w.pos@,
        rules::target_cells(scene, claims_without(t, w), target),
    );
    if w1.plan.len() > 0 {
        let goal = grid::walk_end(w.pos@, w1.plan);
        assert(wanted(scene, t, w, target, goal));
        assert(walk::pos_of(goal)@ == goal);
        let (t2, w2, moved) = rules::stepped(scene, t1, w1, w1.plan[0]);
        if !moved {
            let around = t2.occupied.remove(w2.pos@);
            lemma_wanted(scene, t2, w2, target);
            let targets = rules::target_cells(scene, claims_without(t2, w2), target);
            laws::lemma_best_plan(scene.tiles, around, w2.pos@, targets);
            let alt = rules::plan_for(scene, claims_without(t2, w2), around, w2.pos, target);
            if alt.len() > 0 {
                let goal2 = grid::walk_end(w2.pos@, alt);
                assert(targets.contains(goal2));
                assert(wanted(scene, t2, w2, target, goal2));
                assert(walk::pos_of(goal2)@ == goal2);
            } else {
                let (t3, w3) = rules::with_plan(t2, w2, target, alt);
                laws::lemma_sidestepped(scene, t3, w3, w1.plan[0], 0);
            }
        }
    }
}

/// A worker that has just set out for the base is on a way that ends where one stands.
pub proof fn law_plans_to_the_base_end_at_a_base(
    scene: SceneView,
    t: TickView,
    w: WorkerView,
    id: int,
    q: NavQualifier,
)
    requires
        runs(w, Action::NavigateTo(q, Target::Base)),
        w.plan.len() == 0,
        rules::turn(scene, t, w, id).1.plan.len() > 0,
    ensures
        ({
            let w1 = rules::turn(scene, t, w, id).1;
            exists|i: int|
                0 <= i < scene.bases.len() && (#[trigger] scene.bases[i])@ == grid::walk_end(
                    w1.pos@,
                    w1.plan,
                )
        }),
{
    let target = Target::Base;
    let (t1, w1) = rules::planned(scene, t, w, target);
    laws::lemma_best_plan(
        scene.tiles,
        Set::empty(),
        w.pos@,
        rules::target_cells(scene, claims_without(t, w), target),
    );
    if w1.plan.len() > 0 {
        let (t2, w2, moved) = rules::stepped(scene, t1, w1, w1.plan[0]);
        laws::lemma_walk_end_first(w.pos@, w1.plan);
        if moved {
            assert(w2.pos@ == grid::neighbor(w.pos@, w1.plan[0]));
        } else {
            let around = t2.occupied.remove(w2.pos@);
            let targets = rules::target_cells(scene, claims_without(t2, w2), target);
            laws::lemma_best_plan(scene.tiles, around, w2.pos@, targets);
            let alt = rules::plan_for(scene, claims_without(t2, w2), around, w2.pos, target);
            let (t3, w3) = rules::with_plan(t2, w2, target, alt);
            laws::lemma_sidestepped(scene, t3, w3, w1.plan[0], 0);
        }
    }
}

/// At the beginning of a tick nothing has been picked up and nothing is ordered; claimed is what
/// some worker has reserved, and occupied is where some worker stands.
pub proof fn law_ticks_begin_afresh(ws: Seq<WorkerView>, stock: Seq<Seq<int>>, p: GridPos)
    ensures
        ({
            let t = rules::tick_start(ws, stock);
            &&& !t.picked.contains(p@)
            &&& t.commands.len() == 0
            &&& t.stock == stock
            &&& t.claims.contains(p@) <==> exists|i: int|
                0 <= i < ws.len() && (#[trigger] ws[i]).reserved == Some(p)
            &&& t.occupied.contains(p@) <==> exists|i: int|
                0 <= i < ws.len() && (#[trigger] ws[i]).pos == p
        }),
{
    let t = rules::tick_start(ws, stock);
    if t.claims.contains(p@) {
        let i = choose|i: int| 0 <= i < ws.len() && rules::reserves(#[trigger] ws[i], p@);
        assert(ws[i].reserved == Some(p));
    }
    if exists|i: int| 0 <= i < ws.len() && (#[trigger] ws[i]).reserved == Some(p) {
        let i = choose|i: int| 0 <= i < ws.len() && (#[trigger] ws[i]).reserved == Some(p);
        assert(rules::reserves(ws[i], p@));
    }
    if t.occupied.contains(p@) {
        let i = choose|i: int| 0 <= i < ws.len() && (#[trigger] ws[i]).pos@ == p@;
        assert(ws[i].pos == p);
    }
}

/// Workers take their turns in the order of the list, each one turn, and each sees what those
/// before it have done.
pub proof fn law_workers_act_one_after_the_other(
    scene: SceneView,
    ws: Seq<WorkerView>,
    stock: Seq<Seq<int>>,
) -> (states: Seq<TickView>)
    ensures
        states.len() == ws.len() + 1,
        states[0] == rules::tick_start(ws, stock),
        states.last() == laws::ticked(scene, ws, stock).0,
        laws::ticked(scene, ws, stock).1.len() == ws.len(),
        forall|i: int|
            0 <= i < ws.len() ==> (states[i + 1], laws::ticked(scene, ws, stock).1[i])
                == #[trigger] rules::turn(scene, states[i], ws[i], i),
{
    let start = rules::tick_start(ws, stock);
    let states = Seq::new(ws.len() + 1, |i: int| rules::turns(scene, start, ws, i as nat).0);
    laws::lemma_turns_frame(scene, start, ws, ws.len());
    assert forall|i: int| 0 <= i < ws.len() implies (
        states[i + 1],
        laws::ticked(scene, ws, stock).1[i],
    ) == #[trigger] rules::turn(scene, states[i], ws[i], i) by {
        laws::lemma_turn_of(scene, start, ws, ws.len(), i);
        laws::lemma_turns_frame(scene, start, ws, i as nat);
    }
    states
}

} // verus!
