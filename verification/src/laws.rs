//! What holds of every tick.

use vstd::prelude::*;
use crate::grid;
use crate::grid::{Cell, Direction};
use crate::program::{Action, Target};
use crate::rules;
use crate::rules::{SceneView, TickView, WorkerView, MAX_BUMPS};
use crate::walk;
use crate::world;
use crate::world::Terrain;

verus! {

/// The states after a whole tick.
pub open spec fn ticked(scene: SceneView, ws: Seq<WorkerView>, stock: Seq<Seq<int>>) -> (
    TickView,
    Seq<WorkerView>,
) {
    rules::turns(scene, rules::tick_start(ws, stock), ws, ws.len())
}

/// True of workers that can take their turns: the place of the next instruction is one of the
/// program, unless that is empty.
pub open spec fn workers_able(ws: Seq<WorkerView>) -> bool {
    forall|i: int|
        0 <= i < ws.len() && (#[trigger] ws[i]).instructions.len() > 0 ==> 0 <= ws[i].pc
            < ws[i].instructions.len()
}

/// The turns of the first `n` workers leave the others alone.
pub proof fn lemma_turns_frame(scene: SceneView, t: TickView, ws: Seq<WorkerView>, n: nat)
    requires
        n <= ws.len(),
    ensures
        rules::turns(scene, t, ws, n).1.len() == ws.len(),
        forall|j: int| n <= j < ws.len() ==> #[trigger] rules::turns(scene, t, ws, n).1[j] == ws[j],
    decreases n,
{
    if n > 0 {
        lemma_turns_frame(scene, t, ws, (n - 1) as nat);
    }
}

/// A walk that is best leads to a target; an empty plan stays.
pub proof fn lemma_best_plan(tiles: Seq<Terrain>, blocked: Set<Cell>, start: Cell, targets: Set<Cell>)
    ensures
        walk::open_walk(tiles, blocked, start, rules::best_plan(tiles, blocked, start, targets)),
        rules::best_plan(tiles, blocked, start, targets).len() > 0 ==> targets.contains(
            grid::walk_end(start, rules::best_plan(tiles, blocked, start, targets)),
        ),
{
}

/// A plan is as short as can be: every way to a target takes at least as many steps.
pub proof fn law_plan_is_shortest(
    tiles: Seq<Terrain>,
    blocked: Set<Cell>,
    start: Cell,
    targets: Set<Cell>,
    w: Seq<Direction>,
)
    requires
        walk::open_walk(tiles, blocked, start, w),
        targets.contains(grid::walk_end(start, w)),
    ensures
        rules::best_walk(
            tiles,
            blocked,
            start,
            targets,
            rules::best_plan(tiles, blocked, start, targets),
        ),
        rules::best_plan(tiles, blocked, start, targets).len() <= w.len(),
{
    lemma_best_exists(tiles, blocked, start, targets, w);
    let plan = rules::best_plan(tiles, blocked, start, targets);
    if w.len() < plan.len() {
        grid::law_shorter_walk_ranks_lower(w, plan);
    }
}

/// Where a way to a target is open, one is best.
pub proof fn lemma_best_exists(
    tiles: Seq<Terrain>,
    blocked: Set<Cell>,
    start: Cell,
    targets: Set<Cell>,
    w: Seq<Direction>,
)
    requires
        walk::open_walk(tiles, blocked, start, w),
        targets.contains(grid::walk_end(start, w)),
    ensures
        exists|v: Seq<Direction>| rules::best_walk(tiles, blocked, start, targets, v),
    decreases grid::walk_rank(w),
{
    if !rules::best_walk(tiles, blocked, start, targets, w) {
        let v = choose|v: Seq<Direction>| #[trigger]
            walk::open_walk(tiles, blocked, start, v) && targets.contains(grid::walk_end(start, v))
                && grid::walk_rank(v) < grid::walk_rank(w);
        lemma_best_exists(tiles, blocked, start, targets, v);
    }
}

/// True if the states of a worker before and after agree with what a turn may do to its cell:
/// it stays, or moves by one step onto a free cell, of which the others are told.
pub open spec fn moves_fairly(
    scene: SceneView,
    t0: TickView,
    w0: WorkerView,
    t1: TickView,
    w1: WorkerView,
) -> bool {
    ||| w1.pos == w0.pos && t1.occupied == t0.occupied
    ||| {
        &&& walk::enterable(scene.tiles, t0.occupied, w1.pos@)
        &&& exists|d: Direction| #[trigger] grid::neighbor(w0.pos@, d) == w1.pos@
        &&& t1.occupied == t0.occupied.remove(w0.pos@).insert(w1.pos@)
    }
}

proof fn lemma_stepped(scene: SceneView, t: TickView, w: WorkerView, d: Direction)
    ensures
        ({
            let (t1, w1, moved) = rules::stepped(scene, t, w, d);
            &&& moves_fairly(scene, t, w, t1, w1)
            &&& !moved ==> t1 == t && w1.pos == w.pos
            &&& moved ==> w1.pos@ == grid::neighbor(w.pos@, d) && grid::in_grid(w1.pos@)
            &&& t1 == (TickView { occupied: t1.occupied, ..t })
            &&& w1 == (WorkerView { pos: w1.pos, yaw: w1.yaw, ..w })
        }),
{
    let (t1, w1, moved) = rules::stepped(scene, t, w, d);
    if moved {
        assert(grid::neighbor(w.pos@, d) == w1.pos@);
    }
    assert(t1 =~= (TickView { occupied: t1.occupied, ..t }));
}

pub proof fn lemma_sidestepped(
    scene: SceneView,
    t: TickView,
    w: WorkerView,
    bumped: Direction,
    r: nat,
)
    ensures
        ({
            let (t1, w1, moved) = rules::sidestepped(scene, t, w, bumped, r);
            &&& moves_fairly(scene, t, w, t1, w1)
            &&& !moved ==> w1.pos == w.pos
            &&& t1 == (TickView { occupied: t1.occupied, ..t })
            &&& w1 == (WorkerView { pos: w1.pos, yaw: w1.yaw, ..w })
        }),
    decreases 4 - r,
{
    if r < 4 {
        if rules::direction_at(r) == bumped {
            lemma_sidestepped(scene, t, w, bumped, r + 1);
        } else {
            lemma_stepped(scene, t, w, rules::direction_at(r));
            let (t1, w1, moved) = rules::stepped(scene, t, w, rules::direction_at(r));
            if !moved {
                lemma_sidestepped(scene, t1, w1, bumped, r + 1);
            }
        }
    } else {
        assert(t =~= (TickView { occupied: t.occupied, ..t }));
    }
}

/// True if the states of a worker before and after agree with what a turn may do to claims: a
/// new reservation is of a tile that nobody else has claimed, every reservation is claimed, and
/// nobody else's claim is lost.
pub open spec fn claims_fairly(
    t0: TickView,
    w0: WorkerView,
    t1: TickView,
    w1: WorkerView,
) -> bool {
    let free = rules::released(t0.claims, w0.reserved);
    &&& match w1.reserved {
        Some(p) => {
            ||| w0.reserved == Some(p) && (t0.claims.contains(p@) ==> t1.claims.contains(p@))
            ||| !free.contains(p@) && t1.claims.contains(p@)
        },
        None => true,
    }
    &&& free.subset_of(t1.claims)
}

/// Taking up the best plan to a target claims a tile that was free.
proof fn lemma_with_plan(
    scene: SceneView,
    t: TickView,
    w: WorkerView,
    target: Target,
    blocked: Set<Cell>,
)
    ensures
        ({
            let plan = rules::plan_for(
                scene,
                rules::released(t.claims, w.reserved),
                blocked,
                w.pos,
                target,
            );
            let (t1, w1) = rules::with_plan(t, w, target, plan);
            &&& claims_fairly(t, w, t1, w1)
            &&& t1 == (TickView { claims: t1.claims, ..t })
            &&& w1 == (WorkerView { plan: w1.plan, reserved: w1.reserved, ..w })
            &&& w1.plan == plan
        }),
{
    let free = rules::released(t.claims, w.reserved);
    let targets = rules::target_cells(scene, free, target);
    lemma_best_plan(scene.tiles, blocked, w.pos@, targets);
    let plan = rules::plan_for(scene, free, blocked, w.pos, target);
    let (t1, w1) = rules::with_plan(t, w, target, plan);
    let dest = grid::walk_end(w.pos@, plan);
    if plan.len() > 0 {
        assert(walk::pos_of(dest)@ == dest);
    }
    assert(t1 =~= (TickView { claims: t1.claims, ..t }));
}

/// What going to a target does.
pub proof fn lemma_navigate(
    scene: SceneView,
    t: TickView,
    w: WorkerView,
    target: Target,
)
    ensures
        ({
            let o = rules::after_navigate(scene, t, w, target);
            &&& moves_fairly(scene, t, w, o.tick, o.worker)
            &&& claims_fairly(t, w, o.tick, o.worker)
            &&& o.worker.pos != w.pos ==> o.moved
            &&& o.tick == (TickView { claims: o.tick.claims, occupied: o.tick.occupied, ..t })
            &&& o.worker == (WorkerView {
                pos: o.worker.pos,
                yaw: o.worker.yaw,
                plan: o.worker.plan,
                reserved: o.worker.reserved,
                ..w
            })
        }),
{
    let o = rules::after_navigate(scene, t, w, target);
    lemma_with_plan(scene, t, w, target, Set::empty());
    let (t1, w1) = rules::planned(scene, t, w, target);
    assert(t1 =~= (TickView { claims: t1.claims, ..t }));
    assert(w1 =~= (WorkerView { plan: w1.plan, reserved: w1.reserved, ..w }));
    assert(claims_fairly(t, w, t1, w1));
    if w1.plan.len() > 0 {
        let d = w1.plan[0];
        lemma_stepped(scene, t1, w1, d);
        let (t2, w2, moved) = rules::stepped(scene, t1, w1, d);
        if !moved {
            let blocked = t2.occupied.remove(w2.pos@);
            lemma_with_plan(scene, t2, w2, target, blocked);
            let alt = rules::plan_for(
                scene,
                rules::released(t2.claims, w2.reserved),
                blocked,
                w2.pos,
                target,
            );
            let (t3, w3) = rules::with_plan(t2, w2, target, alt);
            assert(claims_fairly(t, w, t3, w3));
            lemma_sidestepped(scene, t3, w3, d, 0);
        }
    }
    assert(o.tick =~= (TickView { claims: o.tick.claims, occupied: o.tick.occupied, ..t }));
    assert(o.worker =~= (WorkerView {
                pos: o.worker.pos,
                yaw: o.worker.yaw,
                plan: o.worker.plan,
                reserved: o.worker.reserved,
                ..w
            }));
}

/// What any action does to the worker's cell, its claims and its program.
pub proof fn lemma_action(scene: SceneView, t: TickView, w: WorkerView)
    requires
        w.instructions.len() > 0,
        0 <= w.pc < w.instructions.len(),
    ensures
        ({
            let o = rules::after_action(scene, t, w, w.instructions[w.pc]);
            &&& moves_fairly(scene, t, w, o.tick, o.worker)
            &&& claims_fairly(t, w, o.tick, o.worker)
            &&& o.worker.instructions == w.instructions
            &&& 0 <= o.worker.pc < w.instructions.len()
            &&& o.worker.bumps == w.bumps
            &&& o.worker.pos != w.pos ==> o.moved
        }),
{
    let action = w.instructions[w.pc];
    match action {
        Action::Move(d) => {
            lemma_stepped(scene, t, w, d);
        },
        Action::NavigateTo(_, target) => {
            lemma_navigate(scene, t, w, target);
        },
        Action::Jump(target) => {
            vstd::arithmetic::div_mod::lemma_mod_bound(
                target as int,
                w.instructions.len() as int,
            );
        },
        Action::JumpIf(_, target) => {
            vstd::arithmetic::div_mod::lemma_mod_bound(
                target as int,
                w.instructions.len() as int,
            );
        },
        Action::JumpUnless(_, target) => {
            vstd::arithmetic::div_mod::lemma_mod_bound(
                target as int,
                w.instructions.len() as int,
            );
        },
        _ => {},
    }
}

/// What a whole turn does to the worker's cell, its claims and its program.
pub proof fn lemma_turn(scene: SceneView, t: TickView, w: WorkerView, id: int)
    requires
        w.instructions.len() > 0 ==> 0 <= w.pc < w.instructions.len(),
    ensures
        ({
            let (t1, w1) = rules::turn(scene, t, w, id);
            &&& moves_fairly(scene, t, w, t1, w1)
            &&& claims_fairly(t, w, t1, w1)
            &&& w1.instructions == w.instructions
            &&& w.instructions.len() > 0 ==> 0 <= w1.pc < w.instructions.len()
            &&& w1.pos != w.pos && w.bumps is Some ==> w1.bumps == Some(0int)
            &&& grid::steppable(w.pos@) ==> grid::steppable(w1.pos@)
        }),
{
    if w.instructions.len() > 0 {
        lemma_action(scene, t, w);
        let o = rules::after_action(scene, t, w, w.instructions[w.pc]);
        vstd::arithmetic::div_mod::lemma_mod_bound(
            o.worker.pc + 1,
            w.instructions.len() as int,
        );
    }
}

/// Workers that stand on different tiles before a tick stand on different tiles after it.
pub proof fn law_workers_keep_apart(scene: SceneView, ws: Seq<WorkerView>, stock: Seq<Seq<int>>)
    requires
        workers_able(ws),
        forall|i: int, j: int|
            0 <= i < j < ws.len() ==> (#[trigger] ws[i]).pos != (#[trigger] ws[j]).pos,
    ensures
        ({
            let after = ticked(scene, ws, stock).1;
            forall|i: int, j: int|
                0 <= i < j < ws.len() ==> (#[trigger] after[i]).pos != (#[trigger] after[j]).pos
        }),
{
    lemma_apart(scene, rules::tick_start(ws, stock), ws, ws.len());
    lemma_turns_frame(scene, rules::tick_start(ws, stock), ws, ws.len());
}

/// True if the workers stand on different tiles, and these are the occupied ones.
spec fn apart(t: TickView, ws: Seq<WorkerView>) -> bool {
    &&& forall|i: int, j: int|
        0 <= i < j < ws.len() ==> (#[trigger] ws[i]).pos != (#[trigger] ws[j]).pos
    &&& forall|i: int| 0 <= i < ws.len() ==> t.occupied.contains((#[trigger] ws[i]).pos@)
}

proof fn lemma_apart(scene: SceneView, t: TickView, ws: Seq<WorkerView>, n: nat)
    requires
        n <= ws.len(),
        workers_able(ws),
        apart(t, ws),
    ensures
        apart(rules::turns(scene, t, ws, n).0, rules::turns(scene, t, ws, n).1),
    decreases n,
{
    if n > 0 {
        let m = (n - 1) as nat;
        lemma_apart(scene, t, ws, m);
        lemma_turns_frame(scene, t, ws, m);
        let (t1, ws1) = rules::turns(scene, t, ws, m);
        assert(ws1[m as int] == ws[m as int]);
        lemma_turn(scene, t1, ws1[m as int], m as int);
        let (t2, w2) = rules::turn(scene, t1, ws1[m as int], m as int);
        let ws2 = ws1.update(m as int, w2);
        assert forall|i: int, j: int| 0 <= i < j < ws2.len() implies (#[trigger] ws2[i]).pos != (
        #[trigger] ws2[j]).pos by {
            assert(ws1[i].pos != ws1[j].pos);
            if i == m {
                assert(t1.occupied.contains(ws1[j].pos@));
            } else if j == m {
                assert(t1.occupied.contains(ws1[i].pos@));
            }
        }
        assert forall|i: int| 0 <= i < ws2.len() implies t2.occupied.contains(
            (#[trigger] ws2[i]).pos@,
        ) by {
            assert(t1.occupied.contains(ws1[i].pos@));
            if i != m {
                if i < m {
                    assert(ws1[i].pos != ws1[m as int].pos);
                } else {
                    assert(ws1[m as int].pos != ws1[i].pos);
                }
            }
        }
    }
}

/// Workers that have reserved different tiles before a tick have reserved different tiles after
/// it: no two of them go for the same one.
pub proof fn law_reservations_keep_apart(
    scene: SceneView,
    ws: Seq<WorkerView>,
    stock: Seq<Seq<int>>,
)
    requires
        workers_able(ws),
        forall|i: int, j: int, c: Cell|
            0 <= i < j < ws.len() && rules::reserves(ws[i], c) ==> !rules::reserves(ws[j], c),
    ensures
        ({
            let after = ticked(scene, ws, stock).1;
            forall|i: int, j: int, c: Cell|
                0 <= i < j < ws.len() && rules::reserves(after[i], c) ==> !rules::reserves(
                    after[j],
                    c,
                )
        }),
{
    let t = rules::tick_start(ws, stock);
    assert forall|i: int, c: Cell|
        0 <= i < ws.len() && rules::reserves(ws[i], c) implies t.claims.contains(c) by {
    }
    lemma_claims_apart(scene, t, ws, ws.len());
    lemma_turns_frame(scene, t, ws, ws.len());
}

/// True if the workers have reserved different tiles, and all of these are claimed.
spec fn claims_apart(t: TickView, ws: Seq<WorkerView>) -> bool {
    &&& forall|i: int, j: int, c: Cell|
        0 <= i < j < ws.len() && rules::reserves(ws[i], c) ==> !rules::reserves(ws[j], c)
    &&& forall|i: int, c: Cell|
        0 <= i < ws.len() && rules::reserves(ws[i], c) ==> t.claims.contains(c)
}

proof fn lemma_claims_apart(scene: SceneView, t: TickView, ws: Seq<WorkerView>, n: nat)
    requires
        n <= ws.len(),
        workers_able(ws),
        claims_apart(t, ws),
    ensures
        claims_apart(rules::turns(scene, t, ws, n).0, rules::turns(scene, t, ws, n).1),
    decreases n,
{
    if n > 0 {
        let m = (n - 1) as nat;
        lemma_claims_apart(scene, t, ws, m);
        lemma_turns_frame(scene, t, ws, m);
        let (t1, ws1) = rules::turns(scene, t, ws, m);
        assert(ws1[m as int] == ws[m as int]);
        let w1 = ws1[m as int];
        lemma_turn(scene, t1, w1, m as int);
        let (t2, w2) = rules::turn(scene, t1, w1, m as int);
        let ws2 = ws1.update(m as int, w2);
        assert forall|i: int, c: Cell|
            0 <= i < ws2.len() && rules::reserves(ws2[i], c) implies t2.claims.contains(c) by {
            if i != m {
                assert(rules::reserves(ws1[i], c));
                assert(!rules::reserves(w1, c)) by {
                    if i < m {
                        assert(!rules::reserves(ws1[m as int], c));
                    } else if rules::reserves(ws1[m as int], c) {
                        assert(!rules::reserves(ws1[i], c));
                    }
                }
                assert(rules::released(t1.claims, w1.reserved).contains(c));
            } else if w1.reserved == w2.reserved {
                assert(rules::reserves(ws1[m as int], c));
            }
        }
        assert forall|i: int, j: int, c: Cell|
            0 <= i < j < ws2.len() && rules::reserves(ws2[i], c) implies !rules::reserves(
            ws2[j],
            c,
        ) by {
            if rules::reserves(ws2[j], c) {
                let k = if i == m {
                    j
                } else {
                    i
                };
                if i == m || j == m {
                    assert(rules::reserves(w2, c));
                    assert(rules::reserves(ws1[k], c));
                    assert(t1.claims.contains(c));
                    if rules::reserves(w1, c) {
                        if k < m {
                            assert(!rules::reserves(ws1[m as int], c));
                        } else {
                            assert(!rules::reserves(ws1[k], c));
                        }
                    }
                } else {
                    assert(rules::reserves(ws1[i], c));
                    assert(!rules::reserves(ws1[j], c));
                }
            }
        }
    }
}

/// What the turns make of one worker is what its own turn makes of it.
pub proof fn lemma_turn_of(scene: SceneView, t: TickView, ws: Seq<WorkerView>, n: nat, i: int)
    requires
        0 <= i < n <= ws.len(),
    ensures
        rules::turns(scene, t, ws, n).1[i] == rules::turn(
            scene,
            rules::turns(scene, t, ws, i as nat).0,
            ws[i],
            i,
        ).1,
    decreases n,
{
    let m = (n - 1) as nat;
    lemma_turns_frame(scene, t, ws, m);
    if i < m {
        lemma_turn_of(scene, t, ws, m, i);
    }
}

/// The turn of one worker, within a tick.
pub proof fn lemma_ticked_worker(
    scene: SceneView,
    ws: Seq<WorkerView>,
    stock: Seq<Seq<int>>,
    i: int,
) -> (t: TickView)
    requires
        workers_able(ws),
        0 <= i < ws.len(),
    ensures
        ticked(scene, ws, stock).1[i] == rules::turn(scene, t, ws[i], i).1,
        t == rules::turns(scene, rules::tick_start(ws, stock), ws, i as nat).0,
{
    let start = rules::tick_start(ws, stock);
    lemma_turn_of(scene, start, ws, ws.len(), i);
    lemma_turn(scene, rules::turns(scene, start, ws, i as nat).0, ws[i], i);
    rules::turns(scene, start, ws, i as nat).0
}

/// A tick keeps every worker's program, leaves every worker able to take its next turn, and
/// leads none to a position without representable neighbours.
pub proof fn law_workers_stay_ready(scene: SceneView, ws: Seq<WorkerView>, stock: Seq<Seq<int>>)
    requires
        workers_able(ws),
    ensures
        ticked(scene, ws, stock).1.len() == ws.len(),
        workers_able(ticked(scene, ws, stock).1),
        forall|i: int|
            0 <= i < ws.len() ==> (#[trigger] ticked(scene, ws, stock).1[i]).instructions
                == ws[i].instructions && (grid::steppable(ws[i].pos@) ==> grid::steppable(
                ticked(scene, ws, stock).1[i].pos@,
            )),
{
    let after = ticked(scene, ws, stock).1;
    lemma_turns_frame(scene, rules::tick_start(ws, stock), ws, ws.len());
    assert forall|i: int| 0 <= i < ws.len() implies (#[trigger] after[i]).instructions
        == ws[i].instructions && (after[i].instructions.len() > 0 ==> 0 <= after[i].pc
        < after[i].instructions.len()) && (grid::steppable(ws[i].pos@) ==> grid::steppable(
        after[i].pos@,
    )) by {
        let t = lemma_ticked_worker(scene, ws, stock, i);
        lemma_turn(scene, t, ws[i], i);
    }
}

/// During a tick a worker stays where it is or moves to a neighbouring cell that is on the map
/// and passable.
pub proof fn law_moves_are_single_steps(
    scene: SceneView,
    ws: Seq<WorkerView>,
    stock: Seq<Seq<int>>,
    i: int,
)
    requires
        workers_able(ws),
        0 <= i < ws.len(),
    ensures
        ({
            let after = ticked(scene, ws, stock).1[i];
            ||| after.pos == ws[i].pos
            ||| world::passable_at(scene.tiles, after.pos@) && exists|d: Direction| #[trigger]
                grid::neighbor(ws[i].pos@, d) == after.pos@
        }),
{
    let t = lemma_ticked_worker(scene, ws, stock, i);
    lemma_turn(scene, t, ws[i], i);
}

/// A worker that moves starts its count anew. The count of one that does not move goes up by at
/// most one, and only if the instruction was one to move or to go somewhere. A worker without a
/// count never gets one.
pub proof fn law_bumps_count_foiled_ticks(
    scene: SceneView,
    ws: Seq<WorkerView>,
    stock: Seq<Seq<int>>,
    i: int,
)
    requires
        workers_able(ws),
        0 <= i < ws.len(),
    ensures
        ({
            let after = ticked(scene, ws, stock).1[i];
            match ws[i].bumps {
                None => after.bumps is None,
                Some(b) => {
                    &&& after.pos != ws[i].pos ==> after.bumps == Some(0int)
                    &&& after.bumps == Some(0int) || after.bumps == Some(b) || after.bumps == Some(
                        b + 1,
                    )
                    &&& after.bumps != Some(b) ==> ws[i].instructions.len() > 0
                        && (ws[i].instructions[ws[i].pc] is Move
                        || ws[i].instructions[ws[i].pc] is NavigateTo)
                },
            }
        }),
{
    let t = lemma_ticked_worker(scene, ws, stock, i);
    lemma_turn(scene, t, ws[i], i);
    if ws[i].instructions.len() > 0 {
        lemma_action(scene, t, ws[i]);
    }
}

/// True of a worker that has no plan, or is at the instruction that the plan serves and has
/// reserved the tile to which it leads if that is for a resource, and none if it is not.
pub open spec fn on_course(w: WorkerView) -> bool {
    w.plan.len() > 0 ==> {
        &&& 0 <= w.pc < w.instructions.len()
        &&& w.instructions[w.pc] matches Action::NavigateTo(_, target)
        &&& w.reserved == (if target is Resource {
            Some(walk::pos_of(grid::walk_end(w.pos@, w.plan)))
        } else {
            None
        })
    }
}

/// A walk goes on from its first step to the same end.
pub proof fn lemma_walk_end_first(c: Cell, w: Seq<Direction>)
    requires
        w.len() > 0,
    ensures
        grid::walk_end(grid::neighbor(c, w[0]), w.drop_first()) == grid::walk_end(c, w),
    decreases w.len(),
{
    if w.len() == 1 {
        assert(w.drop_last() =~= Seq::<Direction>::empty());
        assert(w.drop_first() =~= Seq::<Direction>::empty());
        reveal_with_fuel(grid::walk_end, 2);
    } else {
        lemma_walk_end_first(c, w.drop_last());
        assert(w.drop_last().drop_first() =~= w.drop_first().drop_last());
    }
}

/// Going to a target keeps a worker on course, and at the instruction until the plan is walked.
proof fn lemma_navigate_on_course(scene: SceneView, t: TickView, w: WorkerView, target: Target)
    requires
        w.plan.len() > 0 ==> w.reserved == (if target is Resource {
            Some(walk::pos_of(grid::walk_end(w.pos@, w.plan)))
        } else {
            None
        }),
    ensures
        ({
            let o = rules::after_navigate(scene, t, w, target);
            o.worker.plan.len() > 0 ==> !o.done && o.worker.reserved == (if target is Resource {
                Some(walk::pos_of(grid::walk_end(o.worker.pos@, o.worker.plan)))
            } else {
                None
            })
        }),
{
    let (t1, w1) = rules::planned(scene, t, w, target);
    if w1.plan.len() > 0 {
        lemma_walk_end_first(w1.pos@, w1.plan);
        lemma_with_plan(scene, t, w, target, Set::empty());
        lemma_stepped(scene, t1, w1, w1.plan[0]);
        let (t2, w2, moved) = rules::stepped(scene, t1, w1, w1.plan[0]);
        if !moved {
            let blocked = t2.occupied.remove(w2.pos@);
            lemma_with_plan(scene, t2, w2, target, blocked);
            let alt = rules::plan_for(
                scene,
                rules::released(t2.claims, w2.reserved),
                blocked,
                w2.pos,
                target,
            );
            let (t3, w3) = rules::with_plan(t2, w2, target, alt);
            lemma_sidestepped(scene, t3, w3, w1.plan[0], 0);
        }
    }
}

/// While it has a plan, a worker stays at the instruction that the plan serves; and what it has
/// reserved is where its plan leads. This ends only when it gives up.
pub proof fn law_plans_hold_the_program(
    scene: SceneView,
    ws: Seq<WorkerView>,
    stock: Seq<Seq<int>>,
    i: int,
)
    requires
        workers_able(ws),
        0 <= i < ws.len(),
        on_course(ws[i]),
        ws[i].bumps matches Some(b) ==> b < MAX_BUMPS,
    ensures
        ({
            let after = ticked(scene, ws, stock).1[i];
            on_course(after) || after.bumps == Some(MAX_BUMPS as int)
        }),
{
    let t = lemma_ticked_worker(scene, ws, stock, i);
    let w = ws[i];
    if w.instructions.len() > 0 {
        lemma_action(scene, t, w);
        match w.instructions[w.pc] {
            Action::NavigateTo(_, target) => {
                lemma_navigate(scene, t, w, target);
                lemma_navigate_on_course(scene, t, w, target);
            },
            Action::Move(d) => {
                lemma_stepped(scene, t, w, d);
            },
            _ => {},
        }
    }
}

} // verus!
