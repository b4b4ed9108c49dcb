use std::collections::VecDeque;

use programming_game::anim::Facing;
use programming_game::grid::{Direction, GridPos, GRID_H, GRID_W};
use programming_game::inventory::{Base, Inventory, ResourceKind};
use programming_game::motion::path_destination;
use programming_game::program::{Action, Condition, NavQualifier, Program, Target};
use programming_game::rules::{Command, ResourceNode, MAX_BUMPS};
use programming_game::sim::{can_step, step_workers, BaseSite, BumpCount, NavState, Worker};
use programming_game::world::{Terrain, World};

fn flat_grass_world() -> World {
    World {
        tiles: vec![Terrain::Grass; (GRID_W * GRID_H) as usize],
    }
}

fn place(world: &mut World, x: i32, y: i32, t: Terrain) {
    world.tiles[World::idx(x, y)] = t;
}

fn pos(x: i32, y: i32) -> GridPos {
    GridPos { x, y }
}

fn node(kind: ResourceKind, pos: GridPos) -> ResourceNode {
    ResourceNode { kind, pos }
}

fn energy(pos: GridPos) -> ResourceNode {
    node(ResourceKind::Energy, pos)
}

fn make_worker(pos: GridPos, instructions: Vec<Action>) -> Worker {
    Worker {
        pos,
        program: Program { instructions, pc: 0 },
        facing: Facing { prev_yaw: 0, current_yaw: 0 },
        inventory: Inventory::default(),
        nav: NavState::default(),
        bumps: None,
    }
}

fn to_energy() -> Action {
    Action::NavigateTo(
        NavQualifier::Closest,
        Target::Resource(ResourceKind::Energy),
    )
}

fn to_base() -> Action {
    Action::NavigateTo(NavQualifier::Closest, Target::Base)
}

fn spawn_blocker(pos: GridPos) -> Worker {
    make_worker(pos, vec![Action::Wait])
}

fn spawn_navigator(pos: GridPos) -> Worker {
    make_worker(pos, vec![to_energy()])
}

fn count_kind(inv: &Inventory, kind: ResourceKind) -> u32 {
    inv.queue.iter().filter(|&&k| k == kind).count() as u32
}

/// Runs a tick on a map without bases.
fn run(world: &World, resources: &Vec<ResourceNode>, workers: &mut Vec<Worker>) -> Vec<Command> {
    let mut bases: Vec<BaseSite> = Vec::new();
    step_workers(world, resources, &mut bases, workers)
}

/// The resource nodes on the map once the changes have been made.
fn nodes_after(resources: &Vec<ResourceNode>, commands: &Vec<Command>) -> Vec<ResourceNode> {
    let mut after: Vec<ResourceNode> = Vec::new();
    for (i, n) in resources.iter().enumerate() {
        if !commands.contains(&Command::DespawnResource(i)) {
            after.push(*n);
        }
    }
    for c in commands {
        if let Command::SpawnResource(n) = c {
            after.push(*n);
        }
    }
    after
}

fn total(
    resources: &Vec<ResourceNode>,
    bases: &Vec<BaseSite>,
    workers: &Vec<Worker>,
    kind: ResourceKind,
) -> u32 {
    let on_map = resources.iter().filter(|n| n.kind == kind).count() as u32;
    let carried: u32 = workers.iter().map(|w| count_kind(&w.inventory, kind)).sum();
    let stored: u32 = bases.iter().map(|b| b.base.stored[kind.index()]).sum();
    on_map + carried + stored
}

#[test]
fn navigate_to_energy_reserves_target_so_workers_pick_different_tiles() {
    let world = flat_grass_world();
    let resources = vec![energy(pos(5, 10)), energy(pos(5, 11))];
    let mut workers = vec![spawn_navigator(pos(5, 5)), spawn_navigator(pos(5, 5))];

    run(&world, &resources, &mut workers);

    let t1 = workers[0].nav.reserved_tile;
    let t2 = workers[1].nav.reserved_tile;
    assert!(t1.is_some() && t2.is_some(), "both workers should hold a claim");
    assert_ne!(t1, t2, "workers must reserve different energy tiles");
    let mut targets = [t1.unwrap(), t2.unwrap()];
    targets.sort_by_key(|p| (p.y, p.x));
    assert_eq!(targets, [GridPos { x: 5, y: 10 }, GridPos { x: 5, y: 11 }]);
}

#[test]
fn pickup_does_not_unclaim_tile_within_same_tick() {
    let world = flat_grass_world();
    let a_tile = pos(5, 5);
    let other = pos(10, 10);
    let resources = vec![energy(a_tile), energy(other)];

    // A is about to pick up at its reserved tile; B is about to plan.
    let mut a = make_worker(a_tile, vec![Action::Pickup(None)]);
    a.nav.reserved_tile = Some(a_tile);
    let b = spawn_navigator(pos(0, 0));
    let mut workers = vec![a, b];

    run(&world, &resources, &mut workers);

    let target_b = workers[1].nav.reserved_tile;
    assert_ne!(
        target_b,
        Some(a_tile),
        "B targeted the tile A just picked up — claim was released too eagerly"
    );
    assert_eq!(
        target_b,
        Some(other),
        "B should have targeted the only other available tile"
    );
}

#[test]
fn pickup_releases_reservation() {
    let world = flat_grass_world();
    let resources = vec![energy(pos(5, 5))];
    let mut w = make_worker(pos(5, 5), vec![Action::Pickup(None)]);
    w.nav.reserved_tile = Some(pos(5, 5));
    let mut workers = vec![w];

    run(&world, &resources, &mut workers);

    assert_eq!(
        workers[0].nav.reserved_tile, None,
        "Pickup must release the reservation"
    );
    assert_eq!(count_kind(&workers[0].inventory, ResourceKind::Energy), 1);
}

#[test]
fn bump_during_navigate_to_replans_around_blocker() {
    let world = flat_grass_world();
    let resources = vec![energy(pos(5, 3))];
    let mut a = spawn_navigator(pos(5, 5));
    a.nav.plan = VecDeque::from(vec![Direction::North, Direction::North]);
    let mut workers = vec![a, spawn_blocker(pos(5, 4))];

    run(&world, &resources, &mut workers);

    assert_eq!(workers[0].pos, GridPos { x: 5, y: 5 });
    let plan = &workers[0].nav.plan;
    assert!(
        !plan.is_empty(),
        "expected a fresh detour plan, got empty; should re-plan around B"
    );
    assert_ne!(
        plan[0],
        Direction::North,
        "re-plan must route around the blocker, not back through them; plan={plan:?}"
    );
    assert_eq!(
        workers[0].program.pc, 0,
        "pc should not advance off navigate_to while we haven't arrived"
    );
}

#[test]
fn bump_with_no_alt_path_sidesteps_into_open_neighbor() {
    let mut world = flat_grass_world();
    for (wx, wy) in [(4, 4), (6, 4), (4, 3), (6, 3), (5, 2), (6, 5), (5, 6)] {
        place(&mut world, wx, wy, Terrain::Wall);
    }
    let resources = vec![energy(pos(5, 3))];
    let mut workers = vec![spawn_navigator(pos(5, 5)), spawn_blocker(pos(5, 4))];

    run(&world, &resources, &mut workers);

    assert_eq!(
        workers[0].pos,
        GridPos { x: 4, y: 5 },
        "A should sidestep west — the only open non-bumped neighbor"
    );
    assert_eq!(
        workers[0].program.pc, 0,
        "still on navigate_to; re-plan happens next tick from new pos"
    );
}

#[test]
fn workers_cannot_step_onto_another_worker() {
    let world = flat_grass_world();
    let mut workers = vec![
        make_worker(pos(5, 5), vec![Action::Move(Direction::North)]),
        spawn_blocker(pos(5, 4)),
    ];

    run(&world, &Vec::new(), &mut workers);

    assert_eq!(
        workers[0].pos,
        GridPos { x: 5, y: 5 },
        "A should bump off B and stay put"
    );
}

#[test]
fn bump_count_increments_when_move_is_blocked() {
    let mut world = flat_grass_world();
    place(&mut world, 5, 4, Terrain::Wall);
    let mut a = make_worker(pos(5, 5), vec![Action::Move(Direction::North)]);
    a.bumps = Some(BumpCount(0));
    let mut workers = vec![a];

    run(&world, &Vec::new(), &mut workers);

    assert_eq!(workers[0].bumps.unwrap().0, 1);
    assert_eq!(workers[0].pos, GridPos { x: 5, y: 5 });
}

#[test]
fn bump_count_resets_on_successful_move() {
    let world = flat_grass_world();
    let mut a = make_worker(pos(5, 5), vec![Action::Move(Direction::East)]);
    a.bumps = Some(BumpCount(7));
    let mut workers = vec![a];

    run(&world, &Vec::new(), &mut workers);

    assert_eq!(
        workers[0].bumps.unwrap().0,
        0,
        "successful step must reset the bump counter"
    );
    assert_eq!(workers[0].pos, GridPos { x: 6, y: 5 });
}

/// A worker that bumps into a wall, one tick short of the limit: is it gone after the tick, and
/// how much is left on its tile?
fn run_despawn_with_inventory(carried: usize) -> (bool, usize) {
    let mut world = flat_grass_world();
    place(&mut world, 5, 4, Terrain::Wall);
    let mut a = make_worker(pos(5, 5), vec![Action::Move(Direction::North)]);
    a.inventory.queue = std::iter::repeat_n(ResourceKind::Energy, carried).collect();
    a.bumps = Some(BumpCount(MAX_BUMPS - 1));
    let mut workers = vec![a];
    let resources: Vec<ResourceNode> = Vec::new();

    let commands = run(&world, &resources, &mut workers);

    let despawned = commands.contains(&Command::DespawnWorker(0));
    let spilled = nodes_after(&resources, &commands)
        .iter()
        .filter(|n| n.pos == GridPos { x: 5, y: 5 })
        .count();
    (despawned, spilled)
}

#[test]
fn worker_despawns_and_spills_inventory_at_max_bumps() {
    let (despawned, spilled) = run_despawn_with_inventory(Inventory::CAPACITY);
    assert!(despawned, "worker should despawn at MAX_BUMPS");
    assert_eq!(
        spilled,
        Inventory::CAPACITY,
        "expected one ResourceNode per carried item"
    );
}

#[test]
fn empty_inventory_despawn_spills_nothing() {
    let (despawned, spilled) = run_despawn_with_inventory(0);
    assert!(despawned);
    assert_eq!(spilled, 0);
}

#[test]
fn pickup_only_one_worker_consumes_same_tile_energy() {
    let world = flat_grass_world();
    let resources = vec![energy(pos(5, 5))];
    let mut workers = vec![
        make_worker(pos(5, 5), vec![Action::Pickup(None)]),
        make_worker(pos(5, 5), vec![Action::Pickup(None)]),
    ];

    let commands = run(&world, &resources, &mut workers);

    let despawns = commands
        .iter()
        .filter(|&&c| c == Command::DespawnResource(0))
        .count();
    assert_eq!(despawns, 1, "energy should be despawned exactly once");
    assert!(nodes_after(&resources, &commands).is_empty());
    let e1 = count_kind(&workers[0].inventory, ResourceKind::Energy);
    let e2 = count_kind(&workers[1].inventory, ResourceKind::Energy);
    assert_eq!(
        e1 + e2,
        1,
        "expected exactly one worker to grab the energy, got e1={e1} e2={e2}"
    );
}

/// The place of the next instruction after one tick of a lone worker.
fn pc_after(inv: Inventory, instructions: Vec<Action>) -> usize {
    let world = flat_grass_world();
    let mut w = make_worker(pos(5, 5), instructions);
    w.inventory = inv;
    let mut workers = vec![w];
    run(&world, &Vec::new(), &mut workers);
    workers[0].program.pc
}

#[test]
fn jump_unless_redirects_pc_when_condition_false() {
    let pc = pc_after(
        Inventory::default(),
        vec![
            Action::JumpUnless(Condition::Carrying(ResourceKind::Energy), 2),
            Action::Wait,
            Action::Drop,
        ],
    );
    assert_eq!(pc, 2);
}

#[test]
fn jump_unless_falls_through_when_condition_true() {
    let mut inv = Inventory::default();
    inv.push(ResourceKind::Energy);
    let pc = pc_after(
        inv,
        vec![
            Action::JumpUnless(Condition::Carrying(ResourceKind::Energy), 2),
            Action::Wait,
            Action::Drop,
        ],
    );
    assert_eq!(pc, 1);
}

#[test]
fn jump_sets_pc_unconditionally() {
    let pc = pc_after(
        Inventory::default(),
        vec![Action::Jump(2), Action::Wait, Action::Drop],
    );
    assert_eq!(pc, 2);
}

#[test]
fn jump_if_redirects_pc_when_condition_true() {
    let mut inv = Inventory::default();
    inv.push(ResourceKind::Energy);
    let pc = pc_after(
        inv,
        vec![
            Action::JumpIf(Condition::Carrying(ResourceKind::Energy), 2),
            Action::Wait,
            Action::Drop,
        ],
    );
    assert_eq!(pc, 2);
}

#[test]
fn jump_if_falls_through_when_condition_false() {
    let pc = pc_after(
        Inventory::default(),
        vec![
            Action::JumpIf(Condition::Carrying(ResourceKind::Energy), 2),
            Action::Wait,
            Action::Drop,
        ],
    );
    assert_eq!(pc, 1);
}

#[test]
fn jump_targets_count_round_the_end() {
    let pc = pc_after(
        Inventory::default(),
        vec![Action::Jump(3), Action::Wait, Action::Drop],
    );
    assert_eq!(pc, 0);
    let pc = pc_after(
        Inventory::default(),
        vec![Action::Jump(7), Action::Wait, Action::Drop],
    );
    assert_eq!(pc, 1);
}

#[test]
fn programs_start_over_after_the_last_instruction() {
    assert_eq!(pc_after(Inventory::default(), vec![Action::Wait]), 0);
    assert_eq!(pc_after(Inventory::default(), Vec::new()), 0);
}

#[test]
fn pickup_of_a_kind_passes_over_others() {
    let world = flat_grass_world();
    let here = pos(5, 5);
    let resources = vec![
        node(ResourceKind::Grass, here),
        node(ResourceKind::Wood, pos(5, 6)),
        node(ResourceKind::Wood, here),
    ];
    let mut workers = vec![make_worker(
        here,
        vec![Action::Pickup(Some(ResourceKind::Wood))],
    )];
    let commands = run(&world, &resources, &mut workers);
    assert_eq!(commands, vec![Command::DespawnResource(2)]);
    assert_eq!(count_kind(&workers[0].inventory, ResourceKind::Wood), 1);
}

#[test]
fn pickup_beyond_capacity_puts_the_oldest_back() {
    let world = flat_grass_world();
    let here = pos(5, 5);
    let resources = vec![node(ResourceKind::Wood, here)];
    let mut w = make_worker(here, vec![Action::Pickup(None)]);
    w.inventory.push(ResourceKind::Energy);
    w.inventory.push(ResourceKind::Grass);
    let mut workers = vec![w];
    let commands = run(&world, &resources, &mut workers);
    assert_eq!(
        commands,
        vec![
            Command::DespawnResource(0),
            Command::SpawnResource(energy(here)),
        ]
    );
    assert_eq!(
        workers[0].inventory.queue.iter().copied().collect::<Vec<_>>(),
        vec![ResourceKind::Grass, ResourceKind::Wood]
    );
}

#[test]
fn drop_stocks_the_base_underfoot_and_no_other() {
    let world = flat_grass_world();
    let mut bases = vec![
        BaseSite { pos: pos(1, 1), base: Base::default() },
        BaseSite { pos: pos(5, 5), base: Base::default() },
        BaseSite { pos: pos(5, 5), base: Base::default() },
    ];
    let mut w = make_worker(pos(5, 5), vec![Action::Drop]);
    w.inventory.push(ResourceKind::Wood);
    w.inventory.push(ResourceKind::Wood);
    let mut workers = vec![w];
    let commands = step_workers(&world, &Vec::new(), &mut bases, &mut workers);
    assert!(commands.is_empty());
    assert_eq!(bases[0].base.stored, [0, 0, 0]);
    assert_eq!(bases[1].base.stored, [0, 0, 2]);
    assert_eq!(bases[2].base.stored, [0, 0, 0]);
    assert!(workers[0].inventory.is_empty());
}

#[test]
fn drop_away_from_a_base_keeps_everything() {
    let world = flat_grass_world();
    let mut bases = vec![BaseSite { pos: pos(1, 1), base: Base::default() }];
    let mut w = make_worker(pos(5, 5), vec![Action::Drop]);
    w.inventory.push(ResourceKind::Wood);
    let mut workers = vec![w];
    step_workers(&world, &Vec::new(), &mut bases, &mut workers);
    assert_eq!(bases[0].base.stored, [0, 0, 0]);
    assert_eq!(count_kind(&workers[0].inventory, ResourceKind::Wood), 1);
}

#[test]
fn navigation_takes_one_step_per_tick_and_then_goes_on() {
    let world = flat_grass_world();
    let mut bases = vec![BaseSite { pos: pos(7, 5), base: Base::default() }];
    let mut workers = vec![make_worker(pos(5, 5), vec![to_base(), Action::Wait])];
    step_workers(&world, &Vec::new(), &mut bases, &mut workers);
    assert_eq!(workers[0].pos, pos(6, 5));
    assert_eq!(workers[0].program.pc, 0);
    assert_eq!(workers[0].nav.reserved_tile, None);
    assert_eq!(workers[0].facing.current_yaw, Direction::East.yaw());
    step_workers(&world, &Vec::new(), &mut bases, &mut workers);
    assert_eq!(workers[0].pos, pos(7, 5));
    assert_eq!(workers[0].program.pc, 1);
}

#[test]
fn navigation_without_a_target_is_skipped_and_not_counted() {
    let world = flat_grass_world();
    let mut w = make_worker(pos(5, 5), vec![to_energy(), Action::Wait]);
    w.bumps = Some(BumpCount(3));
    let mut workers = vec![w];
    run(&world, &Vec::new(), &mut workers);
    assert_eq!(workers[0].program.pc, 1);
    assert_eq!(workers[0].bumps.unwrap().0, 3);
}

#[test]
fn waiting_picking_up_and_dropping_leave_the_count_alone() {
    let world = flat_grass_world();
    for action in [Action::Wait, Action::Pickup(None), Action::Drop, Action::Jump(0)] {
        let mut w = make_worker(pos(5, 5), vec![action]);
        w.bumps = Some(BumpCount(4));
        let mut workers = vec![w];
        let commands = run(&world, &Vec::new(), &mut workers);
        assert_eq!(workers[0].bumps.unwrap().0, 4);
        assert!(commands.is_empty());
    }
}

#[test]
fn a_worker_without_a_count_never_gives_up() {
    let mut world = flat_grass_world();
    place(&mut world, 5, 4, Terrain::Wall);
    let mut workers = vec![make_worker(
        pos(5, 5),
        vec![Action::Move(Direction::North)],
    )];
    for _ in 0..3 * MAX_BUMPS {
        assert!(run(&world, &Vec::new(), &mut workers).is_empty());
    }
    assert!(workers[0].bumps.is_none());
}

#[test]
fn a_worker_gives_up_in_the_tick_that_reaches_the_limit() {
    let mut world = flat_grass_world();
    place(&mut world, 5, 4, Terrain::Wall);
    let mut w = make_worker(pos(5, 5), vec![Action::Move(Direction::North)]);
    w.bumps = Some(BumpCount(0));
    w.nav.reserved_tile = Some(pos(9, 9));
    w.inventory.push(ResourceKind::Grass);
    w.inventory.push(ResourceKind::Wood);
    let mut workers = vec![w];
    for _ in 1..MAX_BUMPS {
        assert!(run(&world, &Vec::new(), &mut workers).is_empty());
    }
    let commands = run(&world, &Vec::new(), &mut workers);
    assert_eq!(
        commands,
        vec![
            Command::SpawnResource(node(ResourceKind::Grass, pos(5, 5))),
            Command::SpawnResource(node(ResourceKind::Wood, pos(5, 5))),
            Command::DespawnWorker(0),
        ]
    );
    assert!(workers[0].inventory.is_empty());
    assert_eq!(workers[0].nav.reserved_tile, None);
}

#[test]
fn a_later_worker_may_take_the_tile_that_an_earlier_one_left() {
    let world = flat_grass_world();
    let mut workers = vec![
        make_worker(pos(5, 5), vec![Action::Move(Direction::East)]),
        make_worker(pos(4, 5), vec![Action::Move(Direction::East)]),
        make_worker(pos(3, 5), vec![Action::Move(Direction::East)]),
    ];
    run(&world, &Vec::new(), &mut workers);
    assert_eq!(workers[0].pos, pos(6, 5));
    assert_eq!(workers[1].pos, pos(5, 5));
    assert_eq!(workers[2].pos, pos(4, 5));
}

#[test]
fn a_crowd_keeps_apart_moves_by_single_steps_and_loses_nothing() {
    let mut world = flat_grass_world();
    for y in 0..GRID_H {
        if y != 7 {
            place(&mut world, 9, y, Terrain::Wall);
        }
    }
    let mut resources: Vec<ResourceNode> = Vec::new();
    for y in 0..GRID_H {
        resources.push(energy(pos(12, y)));
        resources.push(node(ResourceKind::Wood, pos(14, y)));
    }
    let mut bases = vec![BaseSite { pos: pos(5, 5), base: Base::default() }];
    let script = vec![
        to_energy(),
        Action::Pickup(None),
        to_base(),
        Action::Drop,
        Action::Move(Direction::North),
    ];
    let mut workers: Vec<Worker> = Vec::new();
    for i in 0..10 {
        let mut w = make_worker(pos(i % 5, i / 5), script.clone());
        w.bumps = Some(BumpCount(0));
        workers.push(w);
    }
    let energy_total = total(&resources, &bases, &workers, ResourceKind::Energy);
    let wood_total = total(&resources, &bases, &workers, ResourceKind::Wood);
    for _ in 0..400 {
        assert!(can_step(&world, &bases, &workers));
        let before: Vec<GridPos> = workers.iter().map(|w| w.pos).collect();
        let commands = step_workers(&world, &resources, &mut bases, &mut workers);
        for (w, b) in workers.iter().zip(&before) {
            let moved = (w.pos.x - b.x).abs() + (w.pos.y - b.y).abs();
            assert!(moved <= 1);
            assert!(world.get(w.pos.x, w.pos.y).unwrap().passable());
            if moved == 1 {
                assert_eq!(w.bumps.unwrap().0, 0);
            }
            assert!(w.inventory.queue.len() <= Inventory::CAPACITY);
            assert!(w.program.pc < script.len());
            if !w.nav.plan.is_empty() && w.bumps.unwrap().0 < MAX_BUMPS {
                let end = path_destination(w.pos, &w.nav.plan);
                match script[w.program.pc] {
                    Action::NavigateTo(_, Target::Resource(_)) => {
                        assert_eq!(w.nav.reserved_tile, Some(end));
                    }
                    Action::NavigateTo(_, Target::Base) => {
                        assert_eq!(w.nav.reserved_tile, None);
                        assert_eq!(end, pos(5, 5));
                    }
                    other => panic!("a plan at {other:?}"),
                }
            }
        }
        for i in 0..workers.len() {
            for j in i + 1..workers.len() {
                assert_ne!(workers[i].pos, workers[j].pos);
                let (a, b) = (workers[i].nav.reserved_tile, workers[j].nav.reserved_tile);
                assert!(a.is_none() || a != b);
            }
        }
        for (i, c) in commands.iter().enumerate() {
            if let Command::DespawnResource(r) = c {
                assert!(*r < resources.len());
                assert!(!commands[i + 1..].contains(c));
            }
        }
        resources = nodes_after(&resources, &commands);
        let mut alive: Vec<Worker> = Vec::new();
        for (i, w) in workers.into_iter().enumerate() {
            if commands.contains(&Command::DespawnWorker(i)) {
                assert_eq!(w.bumps.unwrap().0, MAX_BUMPS);
            } else {
                assert!(w.bumps.unwrap().0 < MAX_BUMPS);
                alive.push(w);
            }
        }
        workers = alive;
        assert_eq!(
            total(&resources, &bases, &workers, ResourceKind::Energy),
            energy_total
        );
        assert_eq!(
            total(&resources, &bases, &workers, ResourceKind::Wood),
            wood_total
        );
    }
    assert!(bases[0].base.stored[ResourceKind::Energy.index()] > 0);
}

#[test]
fn ticks_are_refused_where_numbers_would_run_out() {
    let world = flat_grass_world();
    let full = |stored: [u32; 3]| {
        vec![BaseSite { pos: pos(5, 5), base: Base { stored } }]
    };
    let mut w = make_worker(pos(5, 5), vec![Action::Drop]);
    w.inventory.push(ResourceKind::Wood);
    let mut workers = vec![w];
    assert!(can_step(&world, &full([u32::MAX, u32::MAX, u32::MAX - 1]), &workers));
    assert!(!can_step(&world, &full([0, 0, u32::MAX]), &workers));
    assert!(can_step(&world, &Vec::new(), &workers));

    workers[0].program.pc = 1;
    assert!(!can_step(&world, &Vec::new(), &workers));
    workers[0].program = Program { instructions: Vec::new(), pc: 1 };
    assert!(can_step(&world, &Vec::new(), &workers));

    workers[0].program = Program { instructions: vec![Action::Move(Direction::East)], pc: 0 };
    workers[0].pos.x = i32::MAX;
    assert!(!can_step(&world, &Vec::new(), &workers));
    workers[0].program.instructions = vec![Action::Move(Direction::West)];
    assert!(can_step(&world, &Vec::new(), &workers));
    workers[0].program.instructions = vec![to_base()];
    assert!(!can_step(&world, &Vec::new(), &workers));
    workers[0].pos.x = i32::MAX - 1;
    assert!(can_step(&world, &Vec::new(), &workers));
    workers[0].program.instructions = vec![Action::Move(Direction::East)];
    assert!(can_step(&world, &Vec::new(), &workers));
    workers[0].bumps = Some(BumpCount(u32::MAX));
    assert!(!can_step(&world, &Vec::new(), &workers));
    workers[0].program.instructions = vec![Action::Wait];
    assert!(can_step(&world, &Vec::new(), &workers));
    assert!(!can_step(&World { tiles: Vec::new() }, &Vec::new(), &workers));
}

#[test]
fn a_full_base_elsewhere_does_not_matter() {
    let world = flat_grass_world();
    let mut bases = vec![
        BaseSite { pos: pos(1, 1), base: Base { stored: [0, 0, u32::MAX] } },
        BaseSite { pos: pos(5, 5), base: Base { stored: [0, 0, u32::MAX - 1] } },
    ];
    let mut w = make_worker(pos(5, 5), vec![Action::Drop]);
    w.inventory.push(ResourceKind::Wood);
    let mut workers = vec![w];
    step_workers(&world, &Vec::new(), &mut bases, &mut workers);
    assert_eq!(bases[0].base.stored, [0, 0, u32::MAX]);
    assert_eq!(bases[1].base.stored, [0, 0, u32::MAX]);
}

#[test]
fn a_worker_at_the_edge_of_the_numbers_can_turn_back() {
    let world = flat_grass_world();
    let mut workers = vec![
        make_worker(pos(i32::MAX, i32::MIN), vec![Action::Move(Direction::West)]),
        make_worker(pos(i32::MIN, i32::MAX), vec![Action::Move(Direction::North)]),
    ];
    workers[0].bumps = Some(BumpCount(3));
    step_workers(&world, &Vec::new(), &mut Vec::new(), &mut workers);
    assert_eq!(workers[0].pos, pos(i32::MAX, i32::MIN));
    assert_eq!(workers[0].bumps.unwrap().0, 4);
    assert_eq!(workers[0].facing.current_yaw, Direction::West.yaw());
    assert_eq!(workers[1].pos, pos(i32::MIN, i32::MAX));
    assert_eq!(workers[1].facing.current_yaw, Direction::North.yaw());
}

#[test]
fn a_full_count_starts_anew_with_a_move() {
    let world = flat_grass_world();
    let mut workers = vec![make_worker(pos(3, 3), vec![Action::Move(Direction::East)])];
    workers[0].bumps = Some(BumpCount(u32::MAX));
    let commands = step_workers(&world, &Vec::new(), &mut Vec::new(), &mut workers);
    assert!(commands.is_empty());
    assert_eq!(workers[0].pos, pos(4, 3));
    assert_eq!(workers[0].bumps.unwrap().0, 0);
}
