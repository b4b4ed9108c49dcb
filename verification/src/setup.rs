//! What is on the map at the beginning.

use vstd::prelude::*;
use crate::grid;
use crate::grid::{start_pos, Cell, Direction, GridPos, GRID_H, GRID_W, NUM_WORKERS};
use crate::anim::Facing;
use crate::inventory::{Base, Inventory, ResourceKind};
use crate::laws;
use crate::path;
use crate::path::worker_start_positions;
use crate::program;
use crate::program::{initial_yaw, Action, Program};
use crate::rules;
use crate::rules::{ResourceNode, WorkerView};
use crate::sim::{BaseSite, BumpCount, NavState, Worker};
use crate::tiles::TileSet;
use crate::walk;
use crate::world;
use crate::world::{tile_hash, Terrain, World};

verus! {

/// Number of columns at the right, and first of the rows at the bottom, that energy is piled
/// onto.
pub const CLUSTER_COLUMNS: i32 = 6;

pub const CLUSTER_TOP: i32 = 10;

/// How the placement of a kind is rolled: two numbers that set its rolls apart from those of the
/// other kinds, and how many tiles in a hundred get one.
pub open spec fn odds(kind: ResourceKind) -> (i32, i32, u32) {
    match kind {
        ResourceKind::Energy => (0x9e37, 0x79b9, 8),
        ResourceKind::Grass => (0x51a5, 0xb47c, 12),
        ResourceKind::Wood => (0x2c8d, 0xe6f1, 8),
    }
}

/// True if the roll for a kind succeeds on a tile.
#[verifier::opaque]
pub open spec fn rolled(kind: ResourceKind, x: i32, y: i32) -> bool {
    let (salt_x, salt_y, chance) = odds(kind);
    world::hash_of(x ^ salt_x, y ^ salt_y) % 100 < chance
}

/// What a roll puts on a tile.
pub open spec fn roll_at(kind: ResourceKind, x: i32, y: i32) -> Seq<ResourceNode> {
    if rolled(kind, x, y) {
        seq![ResourceNode { kind, pos: GridPos { x, y } }]
    } else {
        Seq::empty()
    }
}

/// What is scattered onto a tile: on grass, but not at the start, each kind whose roll succeeds.
pub open spec fn scattered_at(tiles: Seq<Terrain>, c: Cell) -> Seq<ResourceNode> {
    if c == grid::start_cell() || tiles[world::tile_index(c)] != Terrain::Grass {
        Seq::empty()
    } else {
        let (x, y) = (c.0 as i32, c.1 as i32);
        roll_at(ResourceKind::Energy, x, y) + roll_at(ResourceKind::Grass, x, y) + roll_at(
            ResourceKind::Wood,
            x,
            y,
        )
    }
}

/// True of the tiles that energy is piled onto.
pub open spec fn in_cluster(c: Cell) -> bool {
    grid::in_grid(c) && c.0 >= GRID_W - CLUSTER_COLUMNS && c.1 >= CLUSTER_TOP
}

/// True if there is energy among the nodes.
pub open spec fn holds_energy(nodes: Seq<ResourceNode>) -> bool {
    exists|i: int| 0 <= i < nodes.len() && (#[trigger] nodes[i]).kind == ResourceKind::Energy
}

/// What is piled onto a tile: one energy where one can walk and none was scattered.
pub open spec fn piled_at(tiles: Seq<Terrain>, c: Cell) -> Seq<ResourceNode> {
    if in_cluster(c) && c != grid::start_cell() && world::passable_at(tiles, c) && !holds_energy(
        scattered_at(tiles, c),
    ) {
        seq![
            ResourceNode {
                kind: ResourceKind::Energy,
                pos: GridPos { x: c.0 as i32, y: c.1 as i32 },
            },
        ]
    } else {
        Seq::empty()
    }
}

/// What is scattered onto the first `n` tiles.
pub open spec fn scattered(tiles: Seq<Terrain>, n: int) -> Seq<ResourceNode>
    decreases n,
{
    if n <= 0 {
        Seq::empty()
    } else {
        scattered(tiles, n - 1) + scattered_at(tiles, world::cell_at(n - 1))
    }
}

/// What is piled onto the first `n` tiles.
pub open spec fn piled(tiles: Seq<Terrain>, n: int) -> Seq<ResourceNode>
    decreases n,
{
    if n <= 0 {
        Seq::empty()
    } else {
        piled(tiles, n - 1) + piled_at(tiles, world::cell_at(n - 1))
    }
}

/// The resource nodes at the beginning.
pub open spec fn placed(tiles: Seq<Terrain>) -> Seq<ResourceNode> {
    scattered(tiles, world::tile_count()) + piled(tiles, world::tile_count())
}

/// The cells on which there are nodes.
pub open spec fn node_cells(nodes: Seq<ResourceNode>) -> Set<Cell> {
    Set::new(|c: Cell| exists|i: int| 0 <= i < nodes.len() && (#[trigger] nodes[i]).pos@ == c)
}

/// True if the roll for a kind succeeds on a tile.
fn roll(kind: ResourceKind, x: i32, y: i32) -> (b: bool)
    ensures
        b == rolled(kind, x, y),
{
    reveal(rolled);
    let (salt_x, salt_y, chance): (i32, i32, u32) = match kind {
        ResourceKind::Energy => (0x9e37, 0x79b9, 8),
        ResourceKind::Grass => (0x51a5, 0xb47c, 12),
        ResourceKind::Wood => (0x2c8d, 0xe6f1, 8),
    };
    tile_hash(x ^ salt_x, y ^ salt_y) % 100 < chance
}

/// Adds what the roll for a kind puts on a tile.
fn scatter_kind(nodes: &mut Vec<ResourceNode>, kind: ResourceKind, x: i32, y: i32)
    ensures
        final(nodes)@ == old(nodes)@ + roll_at(kind, x, y),
{
    if roll(kind, x, y) {
        nodes.push(ResourceNode { kind, pos: GridPos { x, y } });
    }
    assert(nodes@ =~= old(nodes)@ + roll_at(kind, x, y));
}

/// Adds what is scattered onto a tile; true if that is anything.
fn scatter_onto(world: &World, nodes: &mut Vec<ResourceNode>, x: i32, y: i32) -> (any: bool)
    requires
        world.wf(),
        grid::in_grid((x as int, y as int)),
    ensures
        final(nodes)@ == old(nodes)@ + scattered_at(world.tiles@, (x as int, y as int)),
        any == (scattered_at(world.tiles@, (x as int, y as int)).len() > 0),
{
    let before = nodes.len();
    let start = start_pos();
    let on_grass = match world.get(x, y) {
        Some(Terrain::Grass) => true,
        _ => false,
    };
    if on_grass && !(x == start.x && y == start.y) {
        scatter_kind(nodes, ResourceKind::Energy, x, y);
        scatter_kind(nodes, ResourceKind::Grass, x, y);
        scatter_kind(nodes, ResourceKind::Wood, x, y);
    }
    assert(nodes@ =~= old(nodes)@ + scattered_at(world.tiles@, (x as int, y as int)));
    nodes.len() > before
}

/// Scatters onto one row.
fn scatter_row(world: &World, nodes: &mut Vec<ResourceNode>, held: &mut TileSet, y: i32)
    requires
        world.wf(),
        0 <= y < GRID_H,
        old(nodes)@ == scattered(world.tiles@, y * GRID_W),
        old(held)@ == node_cells(old(nodes)@),
    ensures
        final(nodes)@ == scattered(world.tiles@, (y + 1) * GRID_W),
        final(held)@ == node_cells(final(nodes)@),
{
    let mut x: i32 = 0;
    while x < GRID_W
        invariant
            world.wf(),
            0 <= y < GRID_H,
            0 <= x <= GRID_W,
            nodes@ == scattered(world.tiles@, y * GRID_W + x),
            held@ == node_cells(nodes@),
        decreases GRID_W - x,
    {
        let ghost before = nodes@;
        let ghost c = (x as int, y as int);
        assert(world::cell_at(y * GRID_W + x) == c);
        let any = scatter_onto(world, nodes, x, y);
        if any {
            held.insert(GridPos { x, y });
        }
        proof {
            lemma_scattered_here(world.tiles@, c);
            lemma_node_cells_add(before, scattered_at(world.tiles@, c), c);
        }
        x += 1;
    }
}

/// True if energy was scattered onto a tile.
fn has_scattered_energy(world: &World, x: i32, y: i32) -> (b: bool)
    requires
        world.wf(),
        grid::in_grid((x as int, y as int)),
        (x as int, y as int) != grid::start_cell(),
    ensures
        b == holds_energy(scattered_at(world.tiles@, (x as int, y as int))),
{
    let ghost c = (x as int, y as int);
    let on_grass = match world.get(x, y) {
        Some(Terrain::Grass) => true,
        _ => false,
    };
    let b = on_grass && roll(ResourceKind::Energy, x, y);
    proof {
        if b {
            assert(scattered_at(world.tiles@, c)[0].kind == ResourceKind::Energy);
        }
    }
    b
}

/// Piles onto one row, after everything has been scattered.
fn pile_row(world: &World, nodes: &mut Vec<ResourceNode>, held: &mut TileSet, y: i32)
    requires
        world.wf(),
        CLUSTER_TOP <= y < GRID_H,
        old(nodes)@ == scattered(world.tiles@, world::tile_count()) + piled(
            world.tiles@,
            y * GRID_W,
        ),
        old(held)@ == node_cells(old(nodes)@),
    ensures
        final(nodes)@ == scattered(world.tiles@, world::tile_count()) + piled(
            world.tiles@,
            (y + 1) * GRID_W,
        ),
        final(held)@ == node_cells(final(nodes)@),
{
    let ghost first = scattered(world.tiles@, world::tile_count());
    let mut x: i32 = GRID_W - CLUSTER_COLUMNS;
    proof {
        lemma_piled_left(world.tiles@, y as int, x as int);
    }
    while x < GRID_W
        invariant
            world.wf(),
            first == scattered(world.tiles@, world::tile_count()),
            CLUSTER_TOP <= y < GRID_H,
            GRID_W - CLUSTER_COLUMNS <= x <= GRID_W,
            nodes@ == first + piled(world.tiles@, y * GRID_W + x),
            held@ == node_cells(nodes@),
        decreases GRID_W - x,
    {
        let ghost before = nodes@;
        let ghost c = (x as int, y as int);
        let pos = GridPos { x, y };
        let walkable = match world.get(x, y) {
            Some(t) => t.passable(),
            None => false,
        };
        proof {
            assert(world::cell_at(y * GRID_W + x) == c);
        }
        if pos != start_pos() && walkable && !has_scattered_energy(world, x, y) {
            nodes.push(ResourceNode { kind: ResourceKind::Energy, pos });
            held.insert(pos);
        }
        proof {
            assert(nodes@ =~= before + piled_at(world.tiles@, c));
            assert(nodes@ =~= first + piled(world.tiles@, y * GRID_W + x + 1));
            lemma_node_cells_add(before, piled_at(world.tiles@, c), c);
        }
        x += 1;
    }
}

/// The resource nodes at the beginning, and where they are.
pub fn place_resources(world: &World) -> (r: (Vec<ResourceNode>, TileSet))
    requires
        world.wf(),
    ensures
        r.0@ == placed(world.tiles@),
        r.1@ == node_cells(placed(world.tiles@)),
{
    let mut nodes: Vec<ResourceNode> = Vec::new();
    let mut held = TileSet::new();
    assert(held@ =~= node_cells(nodes@));
    let mut y: i32 = 0;
    while y < GRID_H
        invariant
            world.wf(),
            0 <= y <= GRID_H,
            nodes@ == scattered(world.tiles@, y * GRID_W),
            held@ == node_cells(nodes@),
        decreases GRID_H - y,
    {
        scatter_row(world, &mut nodes, &mut held, y);
        y += 1;
    }
    let ghost first = nodes@;
    assert(nodes@ =~= first + piled(world.tiles@, CLUSTER_TOP * GRID_W)) by {
        lemma_piled_above(world.tiles@, CLUSTER_TOP * GRID_W);
    }
    let mut y: i32 = CLUSTER_TOP;
    while y < GRID_H
        invariant
            world.wf(),
            first == scattered(world.tiles@, world::tile_count()),
            CLUSTER_TOP <= y <= GRID_H,
            nodes@ == first + piled(world.tiles@, y * GRID_W),
            held@ == node_cells(nodes@),
        decreases GRID_H - y,
    {
        pile_row(world, &mut nodes, &mut held, y);
        y += 1;
    }
    (nodes, held)
}

/// What is scattered onto a tile is on it.
proof fn lemma_scattered_here(tiles: Seq<Terrain>, c: Cell)
    requires
        grid::in_grid(c),
    ensures
        forall|i: int|
            0 <= i < scattered_at(tiles, c).len() ==> (#[trigger] scattered_at(tiles, c)[i]).pos@
                == c,
{
}

/// The cells of two lists of nodes.
proof fn lemma_node_cells_both(a: Seq<ResourceNode>, b: Seq<ResourceNode>, c: Cell)
    ensures
        node_cells(a + b).contains(c) == (node_cells(a).contains(c) || node_cells(b).contains(c)),
{
    if node_cells(a).contains(c) {
        let i = choose|i: int| 0 <= i < a.len() && (#[trigger] a[i]).pos@ == c;
        assert((a + b)[i].pos@ == c);
    }
    if node_cells(b).contains(c) {
        let i = choose|i: int| 0 <= i < b.len() && (#[trigger] b[i]).pos@ == c;
        assert((a + b)[a.len() + i].pos@ == c);
    }
    if node_cells(a + b).contains(c) {
        let i = choose|i: int| 0 <= i < (a + b).len() && (#[trigger] (a + b)[i]).pos@ == c;
        if i < a.len() {
            assert(a[i].pos@ == c);
        } else {
            assert(b[i - a.len()].pos@ == c);
        }
    }
}

/// The cells once nodes have been added that are all on one tile.
proof fn lemma_node_cells_add(before: Seq<ResourceNode>, added: Seq<ResourceNode>, c: Cell)
    requires
        forall|i: int| 0 <= i < added.len() ==> (#[trigger] added[i]).pos@ == c,
    ensures
        node_cells(before + added) == (if added.len() > 0 {
            node_cells(before).insert(c)
        } else {
            node_cells(before)
        }),
{
    assert forall|d: Cell| #[trigger] node_cells(before + added).contains(d) == (node_cells(
        before,
    ).contains(d) || added.len() > 0 && d == c) by {
        lemma_node_cells_both(before, added, d);
        if added.len() > 0 {
            assert(added[0].pos@ == c);
        }
    }
    assert(node_cells(before + added) =~= (if added.len() > 0 {
        node_cells(before).insert(c)
    } else {
        node_cells(before)
    }));
}

/// Nothing is piled onto the upper rows.
proof fn lemma_piled_above(tiles: Seq<Terrain>, n: int)
    requires
        n <= CLUSTER_TOP * GRID_W,
    ensures
        piled(tiles, n) == Seq::<ResourceNode>::empty(),
    decreases n,
{
    if n > 0 {
        lemma_piled_above(tiles, n - 1);
        world::lemma_cell_at(n - 1);
        assert(piled(tiles, n) =~= Seq::<ResourceNode>::empty());
    }
}

/// Nothing is piled onto the left of a row.
proof fn lemma_piled_left(tiles: Seq<Terrain>, y: int, x: int)
    requires
        0 <= x <= GRID_W - CLUSTER_COLUMNS,
        0 <= y < GRID_H,
    ensures
        piled(tiles, y * GRID_W + x) == piled(tiles, y * GRID_W),
    decreases x,
{
    if x > 0 {
        lemma_piled_left(tiles, y, x - 1);
        assert(world::cell_at(y * GRID_W + (x - 1)) == (x - 1, y));
        assert(piled(tiles, y * GRID_W + x) =~= piled(tiles, y * GRID_W + (x - 1)));
    }
}

/// The cells onto which something is scattered.
proof fn lemma_scattered_cells(tiles: Seq<Terrain>, n: int, c: Cell)
    requires
        n <= world::tile_count(),
    ensures
        node_cells(scattered(tiles, n)).contains(c) == (grid::in_grid(c) && world::tile_index(c) < n
            && scattered_at(tiles, c).len() > 0),
    decreases n,
{
    if n > 0 {
        let d = world::cell_at(n - 1);
        world::lemma_cell_at(n - 1);
        lemma_scattered_cells(tiles, n - 1, c);
        lemma_scattered_here(tiles, d);
        lemma_node_cells_add(scattered(tiles, n - 1), scattered_at(tiles, d), d);
        if grid::in_grid(c) {
            world::lemma_tile_index(c);
        }
    } else if grid::in_grid(c) {
        world::lemma_tile_index(c);
    }
}

/// The cells onto which something is piled.
proof fn lemma_piled_cells(tiles: Seq<Terrain>, n: int, c: Cell)
    requires
        n <= world::tile_count(),
    ensures
        node_cells(piled(tiles, n)).contains(c) == (grid::in_grid(c) && world::tile_index(c) < n
            && piled_at(tiles, c).len() > 0),
    decreases n,
{
    if n > 0 {
        let d = world::cell_at(n - 1);
        world::lemma_cell_at(n - 1);
        lemma_piled_cells(tiles, n - 1, c);
        lemma_node_cells_add(piled(tiles, n - 1), piled_at(tiles, d), d);
        if grid::in_grid(c) {
            world::lemma_tile_index(c);
        }
    } else if grid::in_grid(c) {
        world::lemma_tile_index(c);
    }
}

/// What is scattered onto a tile is among what is scattered.
proof fn lemma_scattered_among(tiles: Seq<Terrain>, n: int, c: Cell, i: int)
    requires
        grid::in_grid(c),
        world::tile_index(c) < n <= world::tile_count(),
        0 <= i < scattered_at(tiles, c).len(),
    ensures
        scattered(tiles, n).contains(scattered_at(tiles, c)[i]),
    decreases n,
{
    world::lemma_tile_index(c);
    let before = scattered(tiles, n - 1);
    let node = scattered_at(tiles, c)[i];
    if world::tile_index(c) == n - 1 {
        assert(scattered(tiles, n)[before.len() + i] == node);
    } else {
        lemma_scattered_among(tiles, n - 1, c, i);
        let j = choose|j: int| 0 <= j < before.len() && before[j] == node;
        assert(scattered(tiles, n)[j] == node);
    }
}

/// What is piled onto a tile is among what is piled.
proof fn lemma_piled_among(tiles: Seq<Terrain>, n: int, c: Cell)
    requires
        grid::in_grid(c),
        world::tile_index(c) < n <= world::tile_count(),
        piled_at(tiles, c).len() > 0,
    ensures
        piled(tiles, n).contains(piled_at(tiles, c)[0]),
    decreases n,
{
    world::lemma_tile_index(c);
    let before = piled(tiles, n - 1);
    let node = piled_at(tiles, c)[0];
    if world::tile_index(c) == n - 1 {
        assert(piled(tiles, n)[before.len() as int] == node);
    } else {
        lemma_piled_among(tiles, n - 1, c);
        let j = choose|j: int| 0 <= j < before.len() && before[j] == node;
        assert(piled(tiles, n)[j] == node);
    }
}

/// Nothing is placed at the start.
proof fn lemma_start_is_clear(tiles: Seq<Terrain>)
    ensures
        !node_cells(placed(tiles)).contains(grid::start_cell()),
{
    let c = grid::start_cell();
    let n = world::tile_count();
    lemma_node_cells_both(scattered(tiles, n), piled(tiles, n), c);
    lemma_scattered_cells(tiles, n, c);
    lemma_piled_cells(tiles, n, c);
}

/// The program, again.
fn copy_program(instructions: &Vec<Action>) -> (copy: Vec<Action>)
    ensures
        copy@ == instructions@,
{
    let mut copy: Vec<Action> = Vec::new();
    let mut i: usize = 0;
    while i < instructions.len()
        invariant
            i <= instructions@.len(),
            copy@ == instructions@.take(i as int),
        decreases instructions@.len() - i,
    {
        copy.push(instructions[i]);
        i += 1;
        assert(copy@ =~= instructions@.take(i as int));
    }
    assert(copy@ =~= instructions@);
    copy
}

/// The yaw, in quarter turns, that a worker with a program starts with.
pub open spec fn starting_yaw(instructions: Seq<Action>) -> int {
    match program::first_move(instructions) {
        Some(d) => d.quarter_turns(),
        None => 0,
    }
}

/// A worker at the beginning: at the first instruction, with nothing in hand and no plan.
pub open spec fn fresh_worker(pos: GridPos, instructions: Seq<Action>, yaw: int) -> WorkerView {
    WorkerView {
        pos,
        prev_yaw: yaw,
        yaw,
        instructions,
        pc: 0,
        carried: Seq::empty(),
        plan: Seq::empty(),
        reserved: None,
        bumps: Some(0),
    }
}

/// A worker at the beginning.
pub fn spawn_worker(pos: GridPos, instructions: Vec<Action>, initial_yaw: i32) -> (worker: Worker)
    ensures
        worker@ == fresh_worker(pos, instructions@, initial_yaw as int),
{
    let worker = Worker {
        pos,
        program: Program { instructions, pc: 0 },
        facing: Facing { prev_yaw: initial_yaw, current_yaw: initial_yaw },
        inventory: Inventory::default(),
        nav: NavState::default(),
        bumps: Some(BumpCount(0)),
    };
    assert(worker@ =~= fresh_worker(pos, instructions@, initial_yaw as int));
    worker
}

/// What is on the map at the beginning.
pub struct Layout {
    pub resources: Vec<ResourceNode>,
    pub bases: Vec<BaseSite>,
    pub workers: Vec<Worker>,
}

/// Puts resources, one base, and workers on the map. The base is at the start; the workers stand
/// as near to it as can be, on tiles without resources, and have the same program.
pub fn set_up(world: &World, instructions: &Vec<Action>) -> (layout: Layout)
    requires
        world.wf(),
        world::passable_at(world.tiles@, grid::start_cell()),
    ensures
        layout.resources@ == placed(world.tiles@),
        layout.bases@.len() == 1,
        layout.bases@[0].pos@ == grid::start_cell(),
        layout.bases@[0].base.stored@ == seq![0u32, 0u32, 0u32],
        forall|i: int| 0 <= i < layout.workers@.len() ==> (#[trigger] layout.workers@[i]).ready(),
        exists|ws: Seq<Seq<Direction>>|
            {
                &&& #[trigger] walk::nearest_walks(
                    world.tiles@,
                    grid::start_cell(),
                    node_cells(placed(world.tiles@)),
                    NUM_WORKERS as nat,
                    ws,
                )
                &&& layout.workers@.len() == ws.len()
                &&& forall|i: int|
                    0 <= i < ws.len() ==> (#[trigger] layout.workers@[i])@ == fresh_worker(
                        walk::pos_of(grid::walk_end(grid::start_cell(), ws[i])),
                        instructions@,
                        starting_yaw(instructions@),
                    )
            },
{
    let (resources, held) = place_resources(world);
    let starts = worker_start_positions(world, start_pos(), NUM_WORKERS, &held);
    let mut bases: Vec<BaseSite> = Vec::new();
    bases.push(BaseSite { pos: start_pos(), base: Base::default() });
    let yaw = initial_yaw(instructions);
    let mut workers: Vec<Worker> = Vec::new();
    let mut i: usize = 0;
    while i < starts.len()
        invariant
            i <= starts@.len(),
            workers@.len() == i,
            yaw == starting_yaw(instructions@),
            forall|j: int|
                0 <= j < i ==> (#[trigger] workers@[j])@ == fresh_worker(
                    starts@[j],
                    instructions@,
                    yaw as int,
                ),
        decreases starts@.len() - i,
    {
        workers.push(spawn_worker(starts[i], copy_program(instructions), yaw));
        i += 1;
    }
    proof {
        lemma_start_is_clear(world.tiles@);
        assert(path::places(NUM_WORKERS as nat, held@, grid::start_cell()) == NUM_WORKERS);
        let ws = choose|ws: Seq<Seq<Direction>>|
            {
                &&& #[trigger] walk::nearest_walks(
                    world.tiles@,
                    grid::start_cell(),
                    held@,
                    NUM_WORKERS as nat,
                    ws,
                )
                &&& starts@.len() == ws.len()
                &&& forall|i: int|
                    0 <= i < ws.len() ==> (#[trigger] starts@[i])@ == grid::walk_end(
                        grid::start_cell(),
                        ws[i],
                    )
            };
        assert forall|i: int| 0 <= i < ws.len() implies (#[trigger] workers@[i])@ == fresh_worker(
            walk::pos_of(grid::walk_end(grid::start_cell(), ws[i])),
            instructions@,
            starting_yaw(instructions@),
        ) by {
            assert(starts@[i]@ == grid::walk_end(grid::start_cell(), ws[i]));
            assert(starts@[i] == walk::pos_of(grid::walk_end(grid::start_cell(), ws[i])));
        }
        assert forall|i: int| 0 <= i < workers@.len() implies (#[trigger] workers@[i]).ready() by {
            let end = grid::walk_end(grid::start_cell(), ws[i]);
            assert(walk::open_walk(world.tiles@, Set::empty(), grid::start_cell(), ws[i]));
            walk::lemma_reach_passable(world.tiles@, grid::start_cell(), end);
            assert(workers@[i]@.pos@ == end);
            assert(workers@[i]@.pc == 0);
            assert(workers@[i]@.bumps == Some(0int));
        }
    }
    Layout { resources, bases, workers }
}

/// Resources lie where one can walk, and none at the start.
pub proof fn law_resources_lie_on_open_ground(tiles: Seq<Terrain>, i: int)
    requires
        0 <= i < placed(tiles).len(),
    ensures
        world::passable_at(tiles, placed(tiles)[i].pos@),
        placed(tiles)[i].pos@ != grid::start_cell(),
{
    let c = placed(tiles)[i].pos@;
    let n = world::tile_count();
    assert(node_cells(placed(tiles)).contains(c));
    lemma_node_cells_both(scattered(tiles, n), piled(tiles, n), c);
    lemma_scattered_cells(tiles, n, c);
    lemma_piled_cells(tiles, n, c);
}

/// Every tile of the lower right where one can walk, but for the start, holds energy.
pub proof fn law_cluster_is_full(tiles: Seq<Terrain>, c: Cell)
    requires
        in_cluster(c),
        world::passable_at(tiles, c),
        c != grid::start_cell(),
    ensures
        exists|i: int|
            0 <= i < placed(tiles).len() && (#[trigger] placed(tiles)[i]).pos@ == c
                && placed(tiles)[i].kind == ResourceKind::Energy,
{
    let n = world::tile_count();
    let first = scattered(tiles, n);
    let here = scattered_at(tiles, c);
    world::lemma_tile_index(c);
    if holds_energy(here) {
        let k = choose|k: int|
            0 <= k < here.len() && (#[trigger] here[k]).kind == ResourceKind::Energy;
        lemma_scattered_here(tiles, c);
        lemma_scattered_among(tiles, n, c, k);
        let i = choose|i: int| 0 <= i < first.len() && first[i] == here[k];
        assert(placed(tiles)[i] == here[k]);
    } else {
        lemma_piled_among(tiles, n, c);
        let second = piled(tiles, n);
        let i = choose|i: int| 0 <= i < second.len() && second[i] == piled_at(tiles, c)[0];
        assert(placed(tiles)[first.len() + i] == second[i]);
    }
}

/// Start positions are on different tiles, and on none that was excluded.
pub proof fn law_starts_are_apart(
    tiles: Seq<Terrain>,
    c: Cell,
    excluded: Set<Cell>,
    n: nat,
    ws: Seq<Seq<Direction>>,
    i: int,
    j: int,
)
    requires
        walk::nearest_walks(tiles, c, excluded, n, ws),
        0 <= i < j < ws.len(),
    ensures
        grid::walk_end(c, ws[i]) != grid::walk_end(c, ws[j]),
        !excluded.contains(grid::walk_end(c, ws[i])),
        !excluded.contains(grid::walk_end(c, ws[j])),
{
    assert(walk::open_walk(tiles, Set::empty(), c, ws[i]));
    assert(walk::open_walk(tiles, Set::empty(), c, ws[j]));
}

/// The first start position is the start itself, unless it is excluded.
pub proof fn law_starts_begin_at_the_start(
    tiles: Seq<Terrain>,
    c: Cell,
    excluded: Set<Cell>,
    n: nat,
    ws: Seq<Seq<Direction>>,
)
    requires
        walk::nearest_walks(tiles, c, excluded, n, ws),
        !excluded.contains(c),
        n > 0,
    ensures
        ws.len() > 0,
        grid::walk_end(c, ws[0]) == c,
{
    let stay = Seq::<Direction>::empty();
    assert(walk::open_walk(tiles, Set::empty(), c, stay));
    assert(grid::walk_rank(stay) == 0);
    assert(walk::first_walk(tiles, Set::empty(), c, stay));
    assert(grid::walk_end(c, stay) == c);
    if ws.len() == 0 {
        assert(ws.contains(stay));
    } else {
        assert(grid::walk_rank(stay) <= grid::walk_rank(ws.last()));
        assert(ws.contains(stay));
        let k = choose|k: int| 0 <= k < ws.len() && ws[k] == stay;
        if k > 0 {
            assert(grid::walk_rank(ws[0]) < grid::walk_rank(ws[k]));
        }
    }
}

/// There are fewer start positions than asked for only where every reachable tile that is not
/// excluded is one.
pub proof fn law_starts_run_out_only_when_all_are_taken(
    tiles: Seq<Terrain>,
    c: Cell,
    excluded: Set<Cell>,
    n: nat,
    ws: Seq<Seq<Direction>>,
    d: Cell,
)
    requires
        walk::nearest_walks(tiles, c, excluded, n, ws),
        ws.len() < n,
        walk::reachable(tiles, c, d),
        !excluded.contains(d),
    ensures
        exists|i: int| 0 <= i < ws.len() && #[trigger] grid::walk_end(c, ws[i]) == d,
{
    let v = choose|v: Seq<Direction>| #[trigger]
        walk::open_walk(tiles, Set::empty(), c, v) && grid::walk_end(c, v) == d;
    let targets = Set::empty().insert(d);
    laws::lemma_best_exists(tiles, Set::empty(), c, targets, v);
    let w = choose|w: Seq<Direction>| rules::best_walk(tiles, Set::empty(), c, targets, w);
    assert(walk::first_walk(tiles, Set::empty(), c, w));
    let i = choose|i: int| 0 <= i < ws.len() && ws[i] == w;
    assert(grid::walk_end(c, ws[i]) == d);
}

/// Eight tiles in a hundred get energy, twelve grass and eight wood, by rolls of their own.
pub proof fn law_chances(x: i32, y: i32)
    ensures
        rolled(ResourceKind::Energy, x, y) <==> world::hash_of(x ^ 40503, y ^ 31161) % 100 < 8,
        rolled(ResourceKind::Grass, x, y) <==> world::hash_of(x ^ 20901, y ^ 46204) % 100 < 12,
        rolled(ResourceKind::Wood, x, y) <==> world::hash_of(x ^ 11405, y ^ 59121) % 100 < 8,
{
    reveal(rolled);
}

/// What is scattered onto a tile, kind by kind.
proof fn lemma_scattered_kinds(tiles: Seq<Terrain>, node: ResourceNode)
    requires
        grid::in_grid(node.pos@),
    ensures
        scattered_at(tiles, node.pos@).contains(node) <==> {
            &&& node.pos@ != grid::start_cell()
            &&& tiles[world::tile_index(node.pos@)] == Terrain::Grass
            &&& rolled(node.kind, node.pos.x, node.pos.y)
        },
        forall|i: int, j: int|
            0 <= i < j < scattered_at(tiles, node.pos@).len() ==> #[trigger] scattered_at(
                tiles,
                node.pos@,
            )[i] != #[trigger] scattered_at(tiles, node.pos@)[j],
{
    let c = node.pos@;
    let (x, y) = (c.0 as i32, c.1 as i32);
    let here = scattered_at(tiles, c);
    if c != grid::start_cell() && tiles[world::tile_index(c)] == Terrain::Grass {
        let e = roll_at(ResourceKind::Energy, x, y);
        let g = roll_at(ResourceKind::Grass, x, y);
        let w = roll_at(ResourceKind::Wood, x, y);
        assert(here == e + g + w);
        if rolled(node.kind, x, y) {
            match node.kind {
                ResourceKind::Energy => {
                    assert(here[0] == node);
                },
                ResourceKind::Grass => {
                    assert(here[e.len() as int] == node);
                },
                ResourceKind::Wood => {
                    assert(here[(e + g).len() as int] == node);
                },
            }
        }
    }
}

/// A node is among what is scattered if it is among what is scattered onto its tile; and none is
/// scattered twice.
proof fn lemma_scattered_nodes(tiles: Seq<Terrain>, n: int, node: ResourceNode)
    requires
        0 <= n <= world::tile_count(),
    ensures
        scattered(tiles, n).contains(node) <==> grid::in_grid(node.pos@) && world::tile_index(
            node.pos@,
        ) < n && scattered_at(tiles, node.pos@).contains(node),
        scattered(tiles, n).no_duplicates(),
    decreases n,
{
    if n > 0 {
        let d = world::cell_at(n - 1);
        let before = scattered(tiles, n - 1);
        let here = scattered_at(tiles, d);
        let all = scattered(tiles, n);
        let there = ResourceNode { kind: ResourceKind::Wood, pos: walk::pos_of(d) };
        world::lemma_cell_at(n - 1);
        lemma_scattered_nodes(tiles, n - 1, node);
        lemma_scattered_here(tiles, d);
        lemma_scattered_kinds(tiles, there);
        if grid::in_grid(node.pos@) {
            world::lemma_tile_index(node.pos@);
        }
        if all.contains(node) {
            let i = choose|i: int| 0 <= i < all.len() && all[i] == node;
            if i < before.len() {
                assert(before[i] == node);
            } else {
                assert(here[i - before.len()] == node);
            }
        }
        if before.contains(node) {
            let i = choose|i: int| 0 <= i < before.len() && before[i] == node;
            assert(all[i] == node);
        }
        if here.contains(node) {
            let i = choose|i: int| 0 <= i < here.len() && here[i] == node;
            assert(all[before.len() + i] == node);
        }
        assert forall|i: int, j: int| 0 <= i < j < all.len() implies all[i] != all[j] by {
            if j < before.len() {
                assert(before[i] != before[j]);
            } else if i < before.len() {
                assert(before.contains(before[i]));
                lemma_scattered_nodes(tiles, n - 1, before[i]);
                assert(here[j - before.len()].pos@ == d);
            } else {
                assert(here[i - before.len()] != here[j - before.len()]);
            }
        }
    } else if grid::in_grid(node.pos@) {
        world::lemma_tile_index(node.pos@);
    }
}

/// A node is among what is piled if it is what is piled onto its tile; and none is piled twice.
proof fn lemma_piled_nodes(tiles: Seq<Terrain>, n: int, node: ResourceNode)
    requires
        0 <= n <= world::tile_count(),
    ensures
        piled(tiles, n).contains(node) <==> grid::in_grid(node.pos@) && world::tile_index(node.pos@)
            < n && piled_at(tiles, node.pos@).contains(node),
        piled(tiles, n).no_duplicates(),
    decreases n,
{
    if n > 0 {
        let d = world::cell_at(n - 1);
        let before = piled(tiles, n - 1);
        let here = piled_at(tiles, d);
        let all = piled(tiles, n);
        world::lemma_cell_at(n - 1);
        lemma_piled_nodes(tiles, n - 1, node);
        if grid::in_grid(node.pos@) {
            world::lemma_tile_index(node.pos@);
        }
        if all.contains(node) {
            let i = choose|i: int| 0 <= i < all.len() && all[i] == node;
            if i < before.len() {
                assert(before[i] == node);
            } else {
                assert(here[i - before.len()] == node);
            }
        }
        if before.contains(node) {
            let i = choose|i: int| 0 <= i < before.len() && before[i] == node;
            assert(all[i] == node);
        }
        if here.contains(node) {
            let i = choose|i: int| 0 <= i < here.len() && here[i] == node;
            assert(all[before.len() + i] == node);
        }
        assert forall|i: int, j: int| 0 <= i < j < all.len() implies all[i] != all[j] by {
            if j < before.len() {
                assert(before[i] != before[j]);
            } else if i < before.len() {
                assert(before.contains(before[i]));
                lemma_piled_nodes(tiles, n - 1, before[i]);
                assert(here[j - before.len()].pos@ == d);
            }
        }
    } else if grid::in_grid(node.pos@) {
        world::lemma_tile_index(node.pos@);
    }
}

/// What lies where: on a tile of grass a kind whose roll succeeds there, and on every tile of the
/// six columns at the right from the eleventh row on that is neither water nor wall, energy. At
/// the base there is nothing.
pub proof fn law_what_lies_where(tiles: Seq<Terrain>, node: ResourceNode)
    ensures
        ({
            let (x, y) = node.pos@;
            let tile = tiles[y * 20 + x];
            placed(tiles).contains(node) <==> {
                &&& 0 <= x < 20 && 0 <= y < 15 && !(x == 5 && y == 5)
                &&& {
                    ||| tile == Terrain::Grass && rolled(node.kind, node.pos.x, node.pos.y)
                    ||| node.kind == ResourceKind::Energy && x >= 14 && y >= 10 && tile
                        != Terrain::Water && tile != Terrain::Wall
                }
            }
        }),
{
    let n = world::tile_count();
    let (first, second) = (scattered(tiles, n), piled(tiles, n));
    let c = node.pos@;
    lemma_scattered_nodes(tiles, n, node);
    lemma_piled_nodes(tiles, n, node);
    if placed(tiles).contains(node) {
        let i = choose|i: int| 0 <= i < placed(tiles).len() && placed(tiles)[i] == node;
        if i < first.len() {
            assert(first[i] == node);
        } else {
            assert(second[i - first.len()] == node);
        }
    }
    if first.contains(node) {
        let i = choose|i: int| 0 <= i < first.len() && first[i] == node;
        assert(placed(tiles)[i] == node);
    }
    if second.contains(node) {
        let i = choose|i: int| 0 <= i < second.len() && second[i] == node;
        assert(placed(tiles)[first.len() + i] == node);
    }
    if grid::in_grid(c) {
        world::lemma_tile_index(c);
        lemma_scattered_kinds(tiles, node);
        let here = scattered_at(tiles, c);
        if node.kind == ResourceKind::Energy {
            lemma_scattered_here(tiles, c);
            if holds_energy(here) {
                let k = choose|k: int|
                    0 <= k < here.len() && (#[trigger] here[k]).kind == ResourceKind::Energy;
                assert(here[k] == node);
            }
            if here.contains(node) {
                let k = choose|k: int| 0 <= k < here.len() && here[k] == node;
                assert(here[k].kind == ResourceKind::Energy);
            }
            if piled_at(tiles, c).len() > 0 {
                assert(piled_at(tiles, c)[0] == node);
            }
        }
    }
}

/// No two nodes of the same kind lie on the same tile at the beginning.
pub proof fn law_nothing_lies_twice(tiles: Seq<Terrain>, i: int, j: int)
    requires
        0 <= i < j < placed(tiles).len(),
    ensures
        placed(tiles)[i] != placed(tiles)[j],
{
    let n = world::tile_count();
    let (first, second) = (scattered(tiles, n), piled(tiles, n));
    let node = placed(tiles)[j];
    lemma_scattered_nodes(tiles, n, node);
    lemma_piled_nodes(tiles, n, node);
    if j < first.len() {
        assert(first[i] != first[j]);
    } else if i >= first.len() {
        assert(second[i - first.len()] != second[j - first.len()]);
    } else if placed(tiles)[i] == node {
        assert(first[i] == node);
        assert(second[j - first.len()] == node);
        let here = scattered_at(tiles, node.pos@);
        let k = choose|k: int| 0 <= k < here.len() && here[k] == node;
        assert(here[k].kind == ResourceKind::Energy);
    }
}

/// A new worker stands where it is put, is at the first instruction of its program, carries
/// nothing, has no plan and no reservation, and its count is zero. It faces where its first move
/// leads, or north.
pub proof fn law_new_workers(pos: GridPos, instructions: Seq<Action>, yaw: int)
    ensures
        ({
            let w = fresh_worker(pos, instructions, yaw);
            &&& w.pos == pos
            &&& w.instructions == instructions
            &&& w.pc == 0
            &&& w.carried.len() == 0
            &&& w.plan.len() == 0
            &&& w.reserved is None
            &&& w.bumps == Some(0int)
            &&& w.yaw == yaw
            &&& w.prev_yaw == yaw
        }),
        match program::first_move(instructions) {
            None => starting_yaw(instructions) == 0,
            Some(Direction::North) => starting_yaw(instructions) == 0,
            Some(Direction::West) => starting_yaw(instructions) == 1,
            Some(Direction::South) => starting_yaw(instructions) == 2,
            Some(Direction::East) => starting_yaw(instructions) == -1,
        },
{
}

/// No tile that is reached and not excluded is nearer than a start position, unless it is one
/// itself.
pub proof fn law_starts_are_the_nearest(
    tiles: Seq<Terrain>,
    c: Cell,
    excluded: Set<Cell>,
    n: nat,
    ws: Seq<Seq<Direction>>,
    v: Seq<Direction>,
    i: int,
)
    requires
        walk::nearest_walks(tiles, c, excluded, n, ws),
        walk::open_walk(tiles, Set::empty(), c, v),
        !excluded.contains(grid::walk_end(c, v)),
        forall|j: int|
            0 <= j < ws.len() ==> #[trigger] grid::walk_end(c, ws[j]) != grid::walk_end(c, v),
        0 <= i < ws.len(),
    ensures
        ws.len() == n,
        ws[i].len() <= v.len(),
        walk::open_walk(tiles, Set::empty(), c, ws[i]),
{
    let d = grid::walk_end(c, v);
    let targets = Set::empty().insert(d);
    laws::lemma_best_exists(tiles, Set::empty(), c, targets, v);
    let w = choose|w: Seq<Direction>| rules::best_walk(tiles, Set::empty(), c, targets, w);
    assert(walk::first_walk(tiles, Set::empty(), c, w));
    if ws.contains(w) {
        let k = choose|k: int| 0 <= k < ws.len() && ws[k] == w;
        assert(grid::walk_end(c, ws[k]) == d);
    }
    assert(grid::walk_rank(ws[i]) <= grid::walk_rank(ws.last()));
    assert(grid::walk_rank(w) <= grid::walk_rank(v));
    if v.len() < ws[i].len() {
        grid::law_shorter_walk_ranks_lower(v, ws[i]);
    }
}

/// Ten workers start, and as many places are looked for as workers, or one less if the start is
/// excluded.
pub proof fn law_number_of_starts(n: nat, excluded: Set<Cell>, start: Cell)
    ensures
        NUM_WORKERS == 10,
        !excluded.contains(start) ==> path::places(n, excluded, start) == n,
        excluded.contains(start) && n > 0 ==> path::places(n, excluded, start) + 1 == n,
        path::places(0, excluded, start) == 0,
{
}

/// The cells on which nodes lie are the positions of the nodes.
pub proof fn law_nodes_are_where_they_lie(nodes: Seq<ResourceNode>, x: int, y: int)
    ensures
        node_cells(nodes).contains((x, y)) <==> exists|i: int|
            0 <= i < nodes.len() && (#[trigger] nodes[i]).pos.x == x && nodes[i].pos.y == y,
{
}

} // verus!
