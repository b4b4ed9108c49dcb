//! What a tick does to the map, and that nothing is lost or made by it.

use vstd::prelude::*;
use crate::grid::GridPos;
use crate::inventory;
use crate::inventory::{Inventory, ResourceKind};
use crate::laws;
use crate::program::{Action, Target};
use crate::rules;
use crate::rules::{Command, ResourceNode, SceneView, TickView, WorkerView, MAX_BUMPS};

verus! {

/// The place of the node that a worker picks up in its turn, if it picks up one.
pub open spec fn taken(scene: SceneView, t: TickView, w: WorkerView) -> Option<int> {
    match w.instructions[w.pc] {
        Action::Pickup(filter) => if t.picked.contains(w.pos@) {
            None
        } else {
            rules::pickup_from(scene.resources, w.pos, filter, 0)
        },
        _ => None,
    }
}

/// True if a worker gives up in its turn.
pub open spec fn gives_up(before: WorkerView, after: WorkerView) -> bool {
    before.bumps matches Some(b) && after.bumps == Some(b + 1) && b + 1 >= MAX_BUMPS
}

/// The changes to the map that a turn orders.
pub open spec fn ordered(scene: SceneView, t: TickView, w: WorkerView, id: int) -> Seq<Command> {
    let (t1, w1) = rules::turn(scene, t, w, id);
    if gives_up(w, w1) {
        rules::spill_commands(w.carried, w.pos).push(Command::DespawnWorker(id as usize))
    } else {
        match taken(scene, t, w) {
            Some(i) => rules::pickup_commands(w.carried, w.pos, i),
            None => Seq::empty(),
        }
    }
}

/// A node found for a pickup is there, on the tile.
proof fn lemma_pickup_from(
    resources: Seq<ResourceNode>,
    pos: GridPos,
    filter: Option<ResourceKind>,
    i: int,
)
    requires
        0 <= i,
    ensures
        rules::pickup_from(resources, pos, filter, i) matches Some(r) ==> i <= r < resources.len()
            && resources[r].pos == pos,
    decreases resources.len() - i,
{
    if i < resources.len() && !rules::matches_pickup(resources[i], pos, filter) {
        lemma_pickup_from(resources, pos, filter, i + 1);
    }
}

/// Going to a target orders no changes to the map, picks up nothing and drops nothing.
proof fn lemma_navigate_orders_nothing(
    scene: SceneView,
    t: TickView,
    w: WorkerView,
    target: Target,
)
    ensures
        ({
            let o = rules::after_navigate(scene, t, w, target);
            &&& o.tick.commands == t.commands
            &&& o.tick.picked == t.picked
            &&& o.tick.stock == t.stock
            &&& o.worker.carried == w.carried
            &&& o.worker.bumps == w.bumps
        }),
{
    laws::lemma_navigate(scene, t, w, target);
}

/// What a turn adds to the changes ordered so far, and to the tiles where something was picked
/// up.
proof fn lemma_turn_orders(scene: SceneView, t: TickView, w: WorkerView, id: int)
    requires
        0 <= w.pc < w.instructions.len(),
    ensures
        ({
            let (t1, w1) = rules::turn(scene, t, w, id);
            &&& t1.commands == t.commands + ordered(scene, t, w, id)
            &&& t.picked.subset_of(t1.picked)
            &&& taken(scene, t, w) matches Some(i) ==> {
                &&& 0 <= i < scene.resources.len()
                &&& scene.resources[i].pos == w.pos
                &&& !t.picked.contains(w.pos@)
                &&& t1.picked.contains(w.pos@)
                &&& !gives_up(w, w1)
            }
        }),
{
    match w.instructions[w.pc] {
        Action::Pickup(filter) => {
            lemma_pickup_from(scene.resources, w.pos, filter, 0);
        },
        Action::NavigateTo(_, target) => {
            lemma_navigate_orders_nothing(scene, t, w, target);
        },
        _ => {},
    }
    laws::lemma_action(scene, t, w);
    let (t1, w1) = rules::turn(scene, t, w, id);
    assert(t1.commands =~= t.commands + ordered(scene, t, w, id));
}

/// What is in a sequence made of two is in one of them.
proof fn lemma_contains_add(a: Seq<Command>, b: Seq<Command>, c: Command)
    ensures
        (a + b).contains(c) == (a.contains(c) || b.contains(c)),
{
    if a.contains(c) {
        let i = choose|i: int| 0 <= i < a.len() && a[i] == c;
        assert((a + b)[i] == c);
    }
    if b.contains(c) {
        let i = choose|i: int| 0 <= i < b.len() && b[i] == c;
        assert((a + b)[a.len() + i] == c);
    }
}

/// What a turn orders to be taken off the map.
proof fn lemma_ordered_despawns(scene: SceneView, t: TickView, w: WorkerView, id: int)
    requires
        0 <= w.pc < w.instructions.len(),
        scene.resources.len() <= usize::MAX,
        0 <= id <= usize::MAX,
    ensures
        forall|r: usize| #[trigger]
            ordered(scene, t, w, id).contains(Command::DespawnResource(r)) <==> taken(scene, t, w)
                == Some(r as int),
        forall|x: usize| #[trigger]
            ordered(scene, t, w, id).contains(Command::DespawnWorker(x)) <==> x == id && gives_up(
                w,
                rules::turn(scene, t, w, id).1,
            ),
{
    lemma_turn_orders(scene, t, w, id);
    let added = ordered(scene, t, w, id);
    assert forall|r: usize| taken(scene, t, w) == Some(r as int) implies #[trigger] added.contains(
        Command::DespawnResource(r),
    ) by {
        assert(added[0] == Command::DespawnResource(r));
    }
    if gives_up(w, rules::turn(scene, t, w, id).1) {
        assert(added.last() == Command::DespawnWorker(id as usize));
        assert(added.contains(Command::DespawnWorker(id as usize)));
    }
}

/// True if no node is ordered off the map that is not there, and nothing was picked up twice
/// from one tile.
pub open spec fn takes_fairly(scene: SceneView, t: TickView) -> bool {
    &&& forall|j: int|
        0 <= j < t.commands.len() ==> ((#[trigger] t.commands[j]) matches Command::DespawnResource(r)
            ==> r < scene.resources.len() && t.picked.contains(scene.resources[r as int].pos@))
    &&& forall|j: int, k: int|
        0 <= j < k < t.commands.len() ==> ((#[trigger] t.commands[j], #[trigger] t.commands[k])
            matches (Command::DespawnResource(r), Command::DespawnResource(s))
            ==> scene.resources[r as int].pos != scene.resources[s as int].pos)
}

/// A turn takes fairly.
proof fn lemma_turn_takes_fairly(scene: SceneView, t: TickView, w: WorkerView, id: int)
    requires
        w.instructions.len() > 0 ==> 0 <= w.pc < w.instructions.len(),
        scene.resources.len() <= usize::MAX,
        takes_fairly(scene, t),
    ensures
        takes_fairly(scene, rules::turn(scene, t, w, id).0),
{
    if w.instructions.len() > 0 {
        lemma_turn_orders(scene, t, w, id);
        let t1 = rules::turn(scene, t, w, id).0;
        let added = ordered(scene, t, w, id);
        let n = t.commands.len() as int;
        assert forall|j: int| n <= j < t1.commands.len() implies (
        (#[trigger] t1.commands[j]) matches Command::DespawnResource(r) ==> j == n && taken(
            scene,
            t,
            w,
        ) == Some(r as int)) by {
            assert(t1.commands[j] == added[j - n]);
        }
        assert forall|j: int| 0 <= j < n implies #[trigger] t1.commands[j] == t.commands[j] by {
        }
    }
}

proof fn lemma_turns_take_fairly(scene: SceneView, t: TickView, ws: Seq<WorkerView>, n: nat)
    requires
        n <= ws.len(),
        laws::workers_able(ws),
        scene.resources.len() <= usize::MAX,
        takes_fairly(scene, t),
    ensures
        takes_fairly(scene, rules::turns(scene, t, ws, n).0),
    decreases n,
{
    if n > 0 {
        let m = (n - 1) as nat;
        lemma_turns_take_fairly(scene, t, ws, m);
        laws::lemma_turns_frame(scene, t, ws, m);
        let (t1, ws1) = rules::turns(scene, t, ws, m);
        assert(ws1[m as int] == ws[m as int]);
        lemma_turn_takes_fairly(scene, t1, ws1[m as int], m as int);
    }
}

/// During a tick nothing is picked up that is not on the map, and at most one thing per tile;
/// so no node is picked up twice.
pub proof fn law_one_pickup_per_tile(
    scene: SceneView,
    ws: Seq<WorkerView>,
    stock: Seq<Seq<int>>,
    j: int,
    k: int,
    r: usize,
    s: usize,
)
    requires
        laws::workers_able(ws),
        scene.resources.len() <= usize::MAX,
        0 <= j < k < laws::ticked(scene, ws, stock).0.commands.len(),
        laws::ticked(scene, ws, stock).0.commands[j] == Command::DespawnResource(r),
        laws::ticked(scene, ws, stock).0.commands[k] == Command::DespawnResource(s),
    ensures
        r < scene.resources.len(),
        s < scene.resources.len(),
        scene.resources[r as int].pos != scene.resources[s as int].pos,
        r != s,
{
    lemma_turns_take_fairly(scene, rules::tick_start(ws, stock), ws, ws.len());
    let t = laws::ticked(scene, ws, stock).0;
    assert(t.commands[j] == Command::DespawnResource(r));
    assert(t.commands[k] == Command::DespawnResource(s));
}

proof fn lemma_turns_give_up(scene: SceneView, t: TickView, ws: Seq<WorkerView>, n: nat, x: usize)
    requires
        n <= ws.len() <= usize::MAX,
        laws::workers_able(ws),
        scene.resources.len() <= usize::MAX,
        t.commands.len() == 0,
    ensures
        rules::turns(scene, t, ws, n).0.commands.contains(Command::DespawnWorker(x)) <==> x < n
            && gives_up(ws[x as int], rules::turns(scene, t, ws, n).1[x as int]),
    decreases n,
{
    if n > 0 {
        let m = (n - 1) as nat;
        lemma_turns_give_up(scene, t, ws, m, x);
        laws::lemma_turns_frame(scene, t, ws, m);
        let (t1, ws1) = rules::turns(scene, t, ws, m);
        let w = ws1[m as int];
        assert(w == ws[m as int]);
        if w.instructions.len() > 0 {
            lemma_turn_orders(scene, t1, w, m as int);
            lemma_ordered_despawns(scene, t1, w, m as int);
            lemma_contains_add(
                t1.commands,
                ordered(scene, t1, w, m as int),
                Command::DespawnWorker(x),
            );
        }
    }
}

/// A worker is taken off the map in the tick in which its count reaches the limit, and in no
/// other. By then it carries nothing and has reserved nothing.
pub proof fn law_workers_give_up_at_the_limit(
    scene: SceneView,
    ws: Seq<WorkerView>,
    stock: Seq<Seq<int>>,
    x: usize,
)
    requires
        laws::workers_able(ws),
        scene.resources.len() <= usize::MAX,
        x < ws.len() <= usize::MAX,
        ws[x as int].bumps matches Some(b) ==> b < MAX_BUMPS,
    ensures
        ({
            let (t, after) = laws::ticked(scene, ws, stock);
            &&& t.commands.contains(Command::DespawnWorker(x)) <==> after[x as int].bumps == Some(
                MAX_BUMPS as int,
            )
            &&& after[x as int].bumps == Some(MAX_BUMPS as int) ==> after[x as int].carried.len()
                == 0 && after[x as int].reserved is None
        }),
{
    let start = rules::tick_start(ws, stock);
    lemma_turns_give_up(scene, start, ws, ws.len(), x);
    let t = laws::lemma_ticked_worker(scene, ws, stock, x as int);
    laws::law_bumps_count_foiled_ticks(scene, ws, stock, x as int);
    if ws[x as int].instructions.len() > 0 {
        laws::lemma_action(scene, t, ws[x as int]);
    }
}

/// How many of the first `n` nodes are of a kind and stay on the map when the changes are made.
pub open spec fn left(
    resources: Seq<ResourceNode>,
    commands: Seq<Command>,
    kind: ResourceKind,
    n: int,
) -> int
    decreases n,
{
    if n <= 0 {
        0
    } else {
        left(resources, commands, kind, n - 1) + (if resources[n - 1].kind == kind
            && !commands.contains(Command::DespawnResource((n - 1) as usize)) {
            1int
        } else {
            0int
        })
    }
}

/// One if a change puts a node of a kind on the map, else zero.
pub open spec fn puts(c: Command, kind: ResourceKind) -> int {
    match c {
        Command::SpawnResource(node) => if node.kind == kind {
            1
        } else {
            0
        },
        _ => 0,
    }
}

/// How many nodes of a kind are put on the map by the changes.
pub open spec fn put(commands: Seq<Command>, kind: ResourceKind) -> int
    decreases commands.len(),
{
    if commands.len() == 0 {
        0
    } else {
        put(commands.drop_last(), kind) + puts(commands.last(), kind)
    }
}

/// How many nodes of a kind are on the map once the changes have been made.
pub open spec fn on_map(
    resources: Seq<ResourceNode>,
    commands: Seq<Command>,
    kind: ResourceKind,
) -> int {
    left(resources, commands, kind, resources.len() as int) + put(commands, kind)
}

/// How much of a kind the first `n` bases store.
pub open spec fn stored(stock: Seq<Seq<int>>, kind: ResourceKind, n: int) -> int
    decreases n,
{
    if n <= 0 {
        0
    } else {
        stored(stock, kind, n - 1) + stock[n - 1][kind.slot()]
    }
}

/// How much of a kind there is in all: on the map, on the workers, and in the bases.
pub open spec fn total(
    resources: Seq<ResourceNode>,
    commands: Seq<Command>,
    ws: Seq<WorkerView>,
    stock: Seq<Seq<int>>,
    kind: ResourceKind,
) -> int {
    on_map(resources, commands, kind) + rules::carried_from(ws, 0, kind) + stored(
        stock,
        kind,
        stock.len() as int,
    )
}

/// Changes that take nothing off the map leave all nodes.
proof fn lemma_left_same(
    resources: Seq<ResourceNode>,
    a: Seq<Command>,
    b: Seq<Command>,
    kind: ResourceKind,
    n: int,
)
    requires
        forall|r: usize| #[trigger]
            b.contains(Command::DespawnResource(r)) == a.contains(Command::DespawnResource(r)),
    ensures
        left(resources, a, kind, n) == left(resources, b, kind, n),
    decreases n,
{
    if n > 0 {
        lemma_left_same(resources, a, b, kind, n - 1);
        assert(b.contains(Command::DespawnResource((n - 1) as usize)) == a.contains(
            Command::DespawnResource((n - 1) as usize),
        ));
    }
}

/// A change that takes one more node off the map leaves one less of its kind.
proof fn lemma_left_less(
    resources: Seq<ResourceNode>,
    a: Seq<Command>,
    b: Seq<Command>,
    i: int,
    kind: ResourceKind,
    n: int,
)
    requires
        n <= resources.len() <= usize::MAX,
        0 <= i < resources.len(),
        !a.contains(Command::DespawnResource(i as usize)),
        forall|r: usize| #[trigger]
            b.contains(Command::DespawnResource(r)) <==> a.contains(Command::DespawnResource(r))
                || r == i,
    ensures
        left(resources, b, kind, n) == left(resources, a, kind, n) - (if i < n
            && resources[i].kind == kind {
            1int
        } else {
            0int
        }),
    decreases n,
{
    if n > 0 {
        lemma_left_less(resources, a, b, i, kind, n - 1);
        assert(b.contains(Command::DespawnResource((n - 1) as usize)) <==> a.contains(
            Command::DespawnResource((n - 1) as usize),
        ) || n - 1 == i);
    }
}

/// Counting what is put on the map goes part by part.
proof fn lemma_put_add(a: Seq<Command>, b: Seq<Command>, kind: ResourceKind)
    ensures
        put(a + b, kind) == put(a, kind) + put(b, kind),
    decreases b.len(),
{
    if b.len() == 0 {
        assert(a + b =~= a);
    } else {
        lemma_put_add(a, b.drop_last(), kind);
        assert((a + b).drop_last() =~= a + b.drop_last());
    }
}

/// Spilling puts on the map what was carried.
proof fn lemma_put_spilled(carried: Seq<ResourceKind>, pos: GridPos, kind: ResourceKind)
    ensures
        put(rules::spill_commands(carried, pos), kind) == inventory::occurrences(carried, kind),
    decreases carried.len(),
{
    if carried.len() > 0 {
        lemma_put_spilled(carried.drop_last(), pos, kind);
        assert(rules::spill_commands(carried, pos).drop_last() =~= rules::spill_commands(
            carried.drop_last(),
            pos,
        ));
    }
}

/// Stocking one base.
proof fn lemma_stored_update(
    stock: Seq<Seq<int>>,
    b: int,
    row: Seq<int>,
    kind: ResourceKind,
    n: int,
)
    requires
        0 <= b < stock.len(),
        n <= stock.len(),
    ensures
        stored(stock.update(b, row), kind, n) == stored(stock, kind, n) + (if b < n {
            row[kind.slot()] - stock[b][kind.slot()]
        } else {
            0
        }),
    decreases n,
{
    if n > 0 {
        lemma_stored_update(stock, b, row, kind, n - 1);
    }
}

/// Loading one worker.
proof fn lemma_carried_update(
    ws: Seq<WorkerView>,
    i: int,
    w: WorkerView,
    kind: ResourceKind,
    from: int,
)
    requires
        0 <= i < ws.len(),
        0 <= from,
    ensures
        rules::carried_from(ws.update(i, w), from, kind) == rules::carried_from(ws, from, kind) + (
        if from <= i {
            inventory::occurrences(w.carried, kind) - inventory::occurrences(ws[i].carried, kind)
        } else {
            0
        }),
    decreases ws.len() - from,
{
    if from < ws.len() {
        lemma_carried_update(ws, i, w, kind, from + 1);
    }
}

/// A base found for a worker is there.
proof fn lemma_base_from(bases: Seq<GridPos>, pos: GridPos, i: int)
    requires
        0 <= i,
    ensures
        rules::base_from(bases, pos, i) matches Some(b) ==> i <= b < bases.len(),
    decreases bases.len() - i,
{
    if i < bases.len() && bases[i] != pos {
        lemma_base_from(bases, pos, i + 1);
    }
}

/// A turn loses and makes nothing.
proof fn lemma_turn_conserves(
    scene: SceneView,
    t: TickView,
    w: WorkerView,
    id: int,
    kind: ResourceKind,
)
    requires
        w.instructions.len() > 0 ==> 0 <= w.pc < w.instructions.len(),
        scene.resources.len() <= usize::MAX,
        0 <= id <= usize::MAX,
        t.stock.len() == scene.bases.len(),
        takes_fairly(scene, t),
    ensures
        ({
            let (t1, w1) = rules::turn(scene, t, w, id);
            &&& t1.stock.len() == t.stock.len()
            &&& on_map(scene.resources, t1.commands, kind) + inventory::occurrences(w1.carried, kind)
                + stored(t1.stock, kind, t1.stock.len() as int) == on_map(
                scene.resources,
                t.commands,
                kind,
            ) + inventory::occurrences(w.carried, kind) + stored(
                t.stock,
                kind,
                t.stock.len() as int,
            )
        }),
{
    if w.instructions.len() > 0 {
        let (t1, w1) = rules::turn(scene, t, w, id);
        let added = ordered(scene, t, w, id);
        let n = scene.resources.len() as int;
        lemma_turn_orders(scene, t, w, id);
        lemma_ordered_despawns(scene, t, w, id);
        lemma_put_add(t.commands, added, kind);
        assert forall|r: usize| #[trigger]
            t1.commands.contains(Command::DespawnResource(r)) <==> t.commands.contains(
                Command::DespawnResource(r),
            ) || taken(scene, t, w) == Some(r as int) by {
            lemma_contains_add(t.commands, added, Command::DespawnResource(r));
        }
        match taken(scene, t, w) {
            Some(i) => {
                assert(!t.commands.contains(Command::DespawnResource(i as usize)));
                lemma_left_less(scene.resources, t.commands, t1.commands, i, kind, n);
                lemma_turn_takes(scene, t, w, id, i, kind);
            },
            None => {
                lemma_left_same(scene.resources, t.commands, t1.commands, kind, n);
                lemma_turn_hands_over(scene, t, w, id, kind);
            },
        }
    }
}

/// A turn in which a node is picked up: what is carried changes by that node and by what it
/// displaces.
proof fn lemma_turn_takes(
    scene: SceneView,
    t: TickView,
    w: WorkerView,
    id: int,
    i: int,
    kind: ResourceKind,
)
    requires
        0 <= w.pc < w.instructions.len(),
        taken(scene, t, w) == Some(i),
    ensures
        ({
            let (t1, w1) = rules::turn(scene, t, w, id);
            &&& t1.stock == t.stock
            &&& inventory::occurrences(w1.carried, kind) + put(ordered(scene, t, w, id), kind)
                == inventory::occurrences(w.carried, kind) + (if scene.resources[i].kind == kind {
                1int
            } else {
                0int
            })
        }),
{
    let (t1, w1) = rules::turn(scene, t, w, id);
    lemma_turn_orders(scene, t, w, id);
    let node = scene.resources[i];
    let evicted = if w.carried.len() < Inventory::CAPACITY {
        None
    } else {
        Some(w.carried[0])
    };
    inventory::law_push_conserves(w.carried, node.kind, w1.carried, evicted, kind);
    let added = ordered(scene, t, w, id);
    reveal_with_fuel(put, 3);
    assert(added.drop_last().len() == added.len() - 1);
}

/// A turn in which nothing is picked up: what is carried is kept, stocked, or spilled.
proof fn lemma_turn_hands_over(
    scene: SceneView,
    t: TickView,
    w: WorkerView,
    id: int,
    kind: ResourceKind,
)
    requires
        0 <= w.pc < w.instructions.len(),
        taken(scene, t, w) is None,
        t.stock.len() == scene.bases.len(),
    ensures
        ({
            let (t1, w1) = rules::turn(scene, t, w, id);
            &&& t1.stock.len() == t.stock.len()
            &&& inventory::occurrences(w1.carried, kind) + put(ordered(scene, t, w, id), kind)
                + stored(t1.stock, kind, t1.stock.len() as int) == inventory::occurrences(
                w.carried,
                kind,
            ) + stored(t.stock, kind, t.stock.len() as int)
        }),
{
    let (t1, w1) = rules::turn(scene, t, w, id);
    lemma_turn_orders(scene, t, w, id);
    laws::lemma_action(scene, t, w);
    match w.instructions[w.pc] {
        Action::NavigateTo(_, target) => {
            lemma_navigate_orders_nothing(scene, t, w, target);
        },
        Action::Drop => {
            lemma_base_from(scene.bases, w.pos, 0);
            if let Some(b) = rules::base_from(scene.bases, w.pos, 0) {
                lemma_stored_update(
                    t.stock,
                    b,
                    rules::stocked(t.stock[b], w.carried),
                    kind,
                    t.stock.len() as int,
                );
                assert(inventory::kind_at(kind.slot()) == kind);
            }
        },
        _ => {},
    }
    if gives_up(w, w1) {
        let spilled = rules::spill_commands(w.carried, w.pos);
        lemma_put_spilled(w.carried, w.pos, kind);
        assert(spilled.push(Command::DespawnWorker(id as usize)).drop_last() =~= spilled);
    }
}

proof fn lemma_turns_conserve(
    scene: SceneView,
    t: TickView,
    ws: Seq<WorkerView>,
    n: nat,
    kind: ResourceKind,
)
    requires
        n <= ws.len() <= usize::MAX,
        laws::workers_able(ws),
        scene.resources.len() <= usize::MAX,
        t.stock.len() == scene.bases.len(),
        takes_fairly(scene, t),
    ensures
        ({
            let (t1, ws1) = rules::turns(scene, t, ws, n);
            &&& t1.stock.len() == t.stock.len()
            &&& total(scene.resources, t1.commands, ws1, t1.stock, kind) == total(
                scene.resources,
                t.commands,
                ws,
                t.stock,
                kind,
            )
        }),
    decreases n,
{
    if n > 0 {
        let m = (n - 1) as nat;
        lemma_turns_conserve(scene, t, ws, m, kind);
        lemma_turns_take_fairly(scene, t, ws, m);
        laws::lemma_turns_frame(scene, t, ws, m);
        let (t1, ws1) = rules::turns(scene, t, ws, m);
        let w = ws1[m as int];
        assert(w == ws[m as int]);
        lemma_turn_conserves(scene, t1, w, m as int, kind);
        lemma_carried_update(ws1, m as int, rules::turn(scene, t1, w, m as int).1, kind, 0);
    }
}

/// A tick loses nothing and makes nothing: of each kind, what is on the map once the changes
/// have been made, on the workers, and in the bases, comes to what it was before.
pub proof fn law_tick_conserves(
    scene: SceneView,
    ws: Seq<WorkerView>,
    stock: Seq<Seq<int>>,
    kind: ResourceKind,
)
    requires
        laws::workers_able(ws),
        ws.len() <= usize::MAX,
        scene.resources.len() <= usize::MAX,
        stock.len() == scene.bases.len(),
    ensures
        ({
            let (t, after) = laws::ticked(scene, ws, stock);
            total(scene.resources, t.commands, after, t.stock, kind) == total(
                scene.resources,
                Seq::empty(),
                ws,
                stock,
                kind,
            )
        }),
{
    lemma_turns_conserve(scene, rules::tick_start(ws, stock), ws, ws.len(), kind);
}

/// A turn keeps the load within the capacity.
proof fn lemma_turn_keeps_capacity(scene: SceneView, t: TickView, w: WorkerView, id: int)
    requires
        w.instructions.len() > 0 ==> 0 <= w.pc < w.instructions.len(),
        w.carried.len() <= Inventory::CAPACITY,
    ensures
        rules::turn(scene, t, w, id).1.carried.len() <= Inventory::CAPACITY,
{
    if w.instructions.len() > 0 {
        if let Action::NavigateTo(_, target) = w.instructions[w.pc] {
            lemma_navigate_orders_nothing(scene, t, w, target);
        }
    }
}

/// No worker carries more than it can hold.
pub proof fn law_loads_stay_within_capacity(
    scene: SceneView,
    ws: Seq<WorkerView>,
    stock: Seq<Seq<int>>,
    i: int,
)
    requires
        laws::workers_able(ws),
        0 <= i < ws.len(),
        ws[i].carried.len() <= Inventory::CAPACITY,
    ensures
        laws::ticked(scene, ws, stock).1[i].carried.len() <= Inventory::CAPACITY,
{
    let t = laws::lemma_ticked_worker(scene, ws, stock, i);
    lemma_turn_keeps_capacity(scene, t, ws[i], i);
}

/// True if every base has at least what it had, and at most that and what is carried.
spec fn stocks_up(
    before: Seq<Seq<int>>,
    after: Seq<Seq<int>>,
    b: int,
    kind: ResourceKind,
    carried: nat,
) -> bool {
    before[b][kind.slot()] <= after[b][kind.slot()] <= before[b][kind.slot()] + carried
}

/// A turn stocks up the bases by no more than what the worker carries.
proof fn lemma_turn_stocks_up(
    scene: SceneView,
    t: TickView,
    w: WorkerView,
    id: int,
    b: int,
    kind: ResourceKind,
)
    requires
        w.instructions.len() > 0 ==> 0 <= w.pc < w.instructions.len(),
        0 <= b < t.stock.len(),
        t.stock.len() == scene.bases.len(),
    ensures
        ({
            let t1 = rules::turn(scene, t, w, id).0;
            &&& t1.stock.len() == t.stock.len()
            &&& stocks_up(t.stock, t1.stock, b, kind, inventory::occurrences(w.carried, kind))
        }),
{
    if w.instructions.len() > 0 {
        match w.instructions[w.pc] {
            Action::NavigateTo(_, target) => {
                lemma_navigate_orders_nothing(scene, t, w, target);
            },
            Action::Drop => {
                lemma_base_from(scene.bases, w.pos, 0);
                assert(inventory::kind_at(kind.slot()) == kind);
            },
            _ => {},
        }
    }
}

/// The stock of a base never goes down, and goes up by no more than what is carried.
pub proof fn lemma_turns_stock_up(
    scene: SceneView,
    t: TickView,
    ws: Seq<WorkerView>,
    m: nat,
    n: nat,
    b: int,
    kind: ResourceKind,
)
    requires
        m <= n <= ws.len(),
        laws::workers_able(ws),
        0 <= b < t.stock.len(),
        t.stock.len() == scene.bases.len(),
    ensures
        ({
            let s0 = rules::turns(scene, t, ws, m).0.stock;
            let s1 = rules::turns(scene, t, ws, n).0.stock;
            &&& s0.len() == s1.len() == t.stock.len()
            &&& s0[b][kind.slot()] <= s1[b][kind.slot()]
            &&& s1[b][kind.slot()] + rules::carried_from(ws, n as int, kind) <= s0[b][kind.slot()]
                + rules::carried_from(ws, m as int, kind)
        }),
    decreases n,
{
    if m == n {
        if n > 0 {
            lemma_turns_stock_up(scene, t, ws, 0, (n - 1) as nat, b, kind);
            let k = (n - 1) as nat;
            laws::lemma_turns_frame(scene, t, ws, k);
            let (t1, ws1) = rules::turns(scene, t, ws, k);
            assert(ws1[k as int] == ws[k as int]);
            lemma_turn_stocks_up(scene, t1, ws1[k as int], k as int, b, kind);
        }
    } else {
        let k = (n - 1) as nat;
        lemma_turns_stock_up(scene, t, ws, m, k, b, kind);
        laws::lemma_turns_frame(scene, t, ws, k);
        let (t1, ws1) = rules::turns(scene, t, ws, k);
        assert(ws1[k as int] == ws[k as int]);
        lemma_turn_stocks_up(scene, t1, ws1[k as int], k as int, b, kind);
    }
}

/// If the bases can hold their stock after a tick, they can throughout it.
pub proof fn lemma_holdable_throughout(
    scene: SceneView,
    ws: Seq<WorkerView>,
    stock: Seq<Seq<int>>,
    n: nat,
)
    requires
        n <= ws.len(),
        laws::workers_able(ws),
        stock.len() == scene.bases.len(),
        rules::holdable(laws::ticked(scene, ws, stock).0.stock),
    ensures
        rules::holdable(rules::turns(scene, rules::tick_start(ws, stock), ws, n).0.stock),
{
    let start = rules::tick_start(ws, stock);
    let now = rules::turns(scene, start, ws, n).0.stock;
    let end = laws::ticked(scene, ws, stock).0.stock;
    lemma_turns_keep_bases(scene, start, ws, n);
    assert forall|b: int, k: ResourceKind| 0 <= b < now.len() implies (
    #[trigger] now[b][k.slot()]) <= u32::MAX by {
        lemma_turns_stock_up(scene, start, ws, n, ws.len(), b, k);
        assert(end[b][k.slot()] <= u32::MAX);
    }
}

/// A tick neither adds nor takes away bases.
proof fn lemma_turns_keep_bases(scene: SceneView, t: TickView, ws: Seq<WorkerView>, n: nat)
    requires
        n <= ws.len(),
        laws::workers_able(ws),
        t.stock.len() == scene.bases.len(),
    ensures
        rules::turns(scene, t, ws, n).0.stock.len() == t.stock.len(),
    decreases n,
{
    if n > 0 {
        let k = (n - 1) as nat;
        lemma_turns_keep_bases(scene, t, ws, k);
        laws::lemma_turns_frame(scene, t, ws, k);
        let (t1, ws1) = rules::turns(scene, t, ws, k);
        let w = ws1[k as int];
        assert(w == ws[k as int]);
        if w.instructions.len() > 0 {
            lemma_base_from(scene.bases, w.pos, 0);
            if let Action::NavigateTo(_, target) = w.instructions[w.pc] {
                lemma_navigate_orders_nothing(scene, t1, w, target);
            }
        }
    }
}

/// If every base has room for all that the workers carry, the bases can hold their stock after a
/// tick, whatever the workers do.
pub proof fn law_room_for_all_is_enough(
    scene: SceneView,
    ws: Seq<WorkerView>,
    stock: Seq<Seq<int>>,
)
    requires
        laws::workers_able(ws),
        stock.len() == scene.bases.len(),
        forall|b: int, k: ResourceKind|
            0 <= b < stock.len() ==> (#[trigger] stock[b][k.slot()]) + rules::carried_from(ws, 0, k)
                <= u32::MAX,
    ensures
        rules::holdable(laws::ticked(scene, ws, stock).0.stock),
{
    let start = rules::tick_start(ws, stock);
    let end = laws::ticked(scene, ws, stock).0.stock;
    lemma_turns_keep_bases(scene, start, ws, ws.len());
    assert forall|b: int, k: ResourceKind| 0 <= b < end.len() implies (
    #[trigger] end[b][k.slot()]) <= u32::MAX by {
        lemma_turns_stock_up(scene, start, ws, 0, ws.len(), b, k);
        assert(stock[b][k.slot()] + rules::carried_from(ws, 0, k) <= u32::MAX);
    }
}

} // verus!
