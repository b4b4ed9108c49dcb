use std::collections::HashSet;

use programming_game::grid::{start_pos, Direction, GridPos, GRID_H, GRID_W, NUM_WORKERS};
use programming_game::inventory::ResourceKind;
use programming_game::program::Action;
use programming_game::setup::{place_resources, set_up, spawn_worker};
use programming_game::world::{tile_hash, Terrain, World};

fn mixed_world() -> World {
    let mut tiles = vec![Terrain::Grass; (GRID_W * GRID_H) as usize];
    for y in 0..GRID_H {
        for x in 0..GRID_W {
            tiles[World::idx(x, y)] = match (x * 7 + y * 3) % 11 {
                0 => Terrain::Water,
                1 => Terrain::Wall,
                2 => Terrain::Stone,
                3 => Terrain::Dirt,
                _ => Terrain::Grass,
            };
        }
    }
    tiles[World::idx(5, 5)] = Terrain::Grass;
    let mut world = World { tiles };
    world.ensure_connected();
    world
}

/// Placement as two passes over the map with a set of the tiles that hold energy.
fn expected(world: &World) -> Vec<(ResourceKind, GridPos)> {
    let table = [
        (ResourceKind::Energy, 0x9e37, 0x79b9, 8),
        (ResourceKind::Grass, 0x51a5, 0xb47c, 12),
        (ResourceKind::Wood, 0x2c8d, 0xe6f1, 8),
    ];
    let mut energised: HashSet<(i32, i32)> = HashSet::new();
    let mut out: Vec<(ResourceKind, GridPos)> = Vec::new();
    for y in 0..GRID_H {
        for x in 0..GRID_W {
            if (x, y) == (5, 5) || !matches!(world.get(x, y), Some(Terrain::Grass)) {
                continue;
            }
            for (kind, sx, sy, chance) in table {
                if tile_hash(x ^ sx, y ^ sy) % 100 < chance {
                    if kind == ResourceKind::Energy {
                        energised.insert((x, y));
                    }
                    out.push((kind, GridPos { x, y }));
                }
            }
        }
    }
    for y in 10..GRID_H {
        for x in GRID_W - 6..GRID_W {
            if world.get(x, y).unwrap().passable() && energised.insert((x, y)) {
                out.push((ResourceKind::Energy, GridPos { x, y }));
            }
        }
    }
    out
}

#[test]
fn resources_are_scattered_and_piled() {
    let flat = World { tiles: vec![Terrain::Grass; (GRID_W * GRID_H) as usize] };
    for world in [flat, mixed_world()] {
        let (nodes, held) = place_resources(&world);
        let seen: Vec<(ResourceKind, GridPos)> = nodes.iter().map(|n| (n.kind, n.pos)).collect();
        assert_eq!(seen, expected(&world));
        assert!(nodes.len() > 30);
        for n in &nodes {
            assert!(world.get(n.pos.x, n.pos.y).unwrap().passable());
            assert_ne!(n.pos, start_pos());
            assert!(held.contains(&n.pos));
        }
        assert!(!held.contains(&start_pos()));
        for y in 10..GRID_H {
            for x in GRID_W - 6..GRID_W {
                let open = world.get(x, y).unwrap().passable();
                assert_eq!(held.contains(&GridPos { x, y }), open);
                let energy = nodes
                    .iter()
                    .filter(|n| n.kind == ResourceKind::Energy && n.pos == GridPos { x, y })
                    .count();
                assert_eq!(energy, if open { 1 } else { 0 });
            }
        }
    }
}

#[test]
fn workers_start_around_the_base() {
    let world = mixed_world();
    let layout = set_up(&world, &vec![Action::Wait, Action::Move(Direction::East)]);
    assert_eq!(layout.bases.len(), 1);
    assert_eq!(layout.bases[0].pos, start_pos());
    assert_eq!(layout.bases[0].base.stored, [0, 0, 0]);
    assert_eq!(layout.workers.len(), NUM_WORKERS);
    assert_eq!(layout.workers[0].pos, start_pos());
    for (i, w) in layout.workers.iter().enumerate() {
        assert!(layout.resources.iter().all(|n| n.pos != w.pos));
        assert!(layout.workers[..i].iter().all(|v| v.pos != w.pos));
        assert!(w.inventory.is_empty());
        assert!(w.nav.plan.is_empty());
        assert_eq!(w.nav.reserved_tile, None);
        assert_eq!(w.bumps.unwrap().0, 0);
        assert_eq!(w.program.pc, 0);
        assert_eq!(
            w.program.instructions,
            vec![Action::Wait, Action::Move(Direction::East)]
        );
        assert_eq!((w.facing.prev_yaw, w.facing.current_yaw), (-1, -1));
    }
}

#[test]
fn a_new_worker_faces_as_it_is_told() {
    let w = spawn_worker(GridPos { x: 3, y: 4 }, vec![Action::Drop], 2);
    assert_eq!(w.pos, GridPos { x: 3, y: 4 });
    assert_eq!((w.facing.prev_yaw, w.facing.current_yaw), (2, 2));
    assert_eq!(w.program.instructions, vec![Action::Drop]);
}
