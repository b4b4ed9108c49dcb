use std::collections::VecDeque;

use programming_game::grid::{start_pos, GRID_H, GRID_W, START_X, START_Y};
use programming_game::world::{tile_hash, Terrain, World};

// Standalone BFS so connectivity assertions aren't tautological with
// World::flood_from — if both broke the same way, the test would still pass.
fn bfs_reachable(world: &World, sx: i32, sy: i32) -> Vec<bool> {
    let mut seen = vec![false; (GRID_W * GRID_H) as usize];
    let mut queue = VecDeque::from([(sx, sy)]);
    while let Some((x, y)) = queue.pop_front() {
        if !(0..GRID_W).contains(&x) || !(0..GRID_H).contains(&y) {
            continue;
        }
        let i = World::idx(x, y);
        if seen[i] || !world.tiles[i].passable() {
            continue;
        }
        seen[i] = true;
        for (dx, dy) in [(1, 0), (-1, 0), (0, 1), (0, -1)] {
            queue.push_back((x + dx, y + dy));
        }
    }
    seen
}

fn lattice_value(ix: i32, iy: i32) -> f32 {
    tile_hash(ix, iy) as f32 / u32::MAX as f32
}

fn smoothstep(t: f32) -> f32 {
    t * t * (3.0 - 2.0 * t)
}

fn value_noise(x: i32, y: i32) -> f32 {
    let fx = x as f32 / 4.5;
    let fy = y as f32 / 4.5;
    let x0 = fx.floor() as i32;
    let y0 = fy.floor() as i32;
    let tx = smoothstep(fx - x0 as f32);
    let ty = smoothstep(fy - y0 as f32);
    let v00 = lattice_value(x0, y0);
    let v10 = lattice_value(x0 + 1, y0);
    let v01 = lattice_value(x0, y0 + 1);
    let v11 = lattice_value(x0 + 1, y0 + 1);
    let a = v00 * (1.0 - tx) + v10 * tx;
    let b = v01 * (1.0 - tx) + v11 * tx;
    a * (1.0 - ty) + b * ty
}

fn elevation() -> Vec<u32> {
    let mut bits: Vec<u32> = Vec::new();
    for y in 0..GRID_H {
        for x in 0..GRID_W {
            bits.push(value_noise(x, y).to_bits());
        }
    }
    bits
}

#[test]
fn start_cell_is_passable() {
    let world = World::generate(&elevation());
    assert!(world.get(START_X, START_Y).unwrap().passable());
}

#[test]
fn all_passable_cells_reachable_from_start() {
    let world = World::generate(&elevation());
    let seen = bfs_reachable(&world, START_X, START_Y);
    for y in 0..GRID_H {
        for x in 0..GRID_W {
            let t = world.get(x, y).unwrap();
            if t.passable() {
                assert!(
                    seen[World::idx(x, y)],
                    "passable cell ({x}, {y}) = {t:?} is unreachable from START"
                );
            }
        }
    }
}

#[test]
fn ensure_connected_links_isolated_islands() {
    // Wall everywhere except two lone grass cells in opposite corners.
    let mut tiles = vec![Terrain::Wall; (GRID_W * GRID_H) as usize];
    tiles[World::idx(START_X, START_Y)] = Terrain::Grass;
    let far = (GRID_W - 1, GRID_H - 1);
    tiles[World::idx(far.0, far.1)] = Terrain::Grass;

    let mut world = World { tiles };
    world.ensure_connected();

    let seen = bfs_reachable(&world, START_X, START_Y);
    assert!(
        seen[World::idx(far.0, far.1)],
        "far corner should be reachable after ensure_connected"
    );
}

#[test]
fn connecting_carves_across_and_then_down() {
    let mut tiles = vec![Terrain::Water; (GRID_W * GRID_H) as usize];
    tiles[World::idx(5, 5)] = Terrain::Grass;
    tiles[World::idx(8, 3)] = Terrain::Stone;
    let mut world = World { tiles };
    world.ensure_connected();
    // From the stranded cell along its row, then along the column of the start.
    for (x, y) in [(7, 3), (6, 3), (5, 3), (5, 4)] {
        assert!(matches!(world.get(x, y), Some(Terrain::Dirt)), "({x}, {y})");
    }
    assert!(matches!(world.get(8, 3), Some(Terrain::Stone)));
    assert!(matches!(world.get(5, 5), Some(Terrain::Grass)));
    let open = world.tiles.iter().filter(|t| t.passable()).count();
    assert_eq!(open, 6);
}

#[test]
fn a_connected_map_is_left_alone() {
    let mut tiles = vec![Terrain::Grass; (GRID_W * GRID_H) as usize];
    tiles[World::idx(3, 3)] = Terrain::Wall;
    let mut world = World { tiles };
    world.ensure_connected();
    let walls = world.tiles.iter().filter(|t| !t.passable()).count();
    assert_eq!(walls, 1);
    assert!(matches!(world.get(3, 3), Some(Terrain::Wall)));
}

#[test]
fn flood_marks_what_is_reached() {
    let mut tiles = vec![Terrain::Wall; (GRID_W * GRID_H) as usize];
    for x in 2..6 {
        tiles[World::idx(x, 7)] = Terrain::Dirt;
    }
    tiles[World::idx(10, 10)] = Terrain::Dirt;
    let world = World { tiles };
    let seen = world.flood_from(2, 7);
    assert_eq!(seen.iter().filter(|&&b| b).count(), 4);
    assert!(seen[World::idx(5, 7)]);
    assert!(!seen[World::idx(10, 10)]);
    assert!(world.flood_from(0, 0).iter().all(|&b| !b));
    assert!(world.flood_from(-1, 99).iter().all(|&b| !b));
}

#[test]
fn bands_follow_the_thresholds() {
    let band = |n: f32| Terrain::from_elevation(n.to_bits());
    let expected = |n: f32| {
        if n < 0.30 {
            Terrain::Water
        } else if n < 0.42 {
            Terrain::Dirt
        } else if n < 0.70 {
            Terrain::Grass
        } else if n < 0.84 {
            Terrain::Stone
        } else {
            Terrain::Wall
        }
    };
    let mut samples: Vec<f32> = vec![
        0.0,
        -0.0,
        1.0,
        -1.0,
        -0.5,
        f32::INFINITY,
        f32::NEG_INFINITY,
        f32::NAN,
        -f32::NAN,
        f32::MIN_POSITIVE,
        f32::MAX,
        f32::MIN,
    ];
    for t in [0.30_f32, 0.42, 0.70, 0.84] {
        samples.push(t);
        samples.push(f32::from_bits(t.to_bits() - 1));
        samples.push(f32::from_bits(t.to_bits() + 1));
    }
    for i in 0..=1000 {
        samples.push(i as f32 / 1000.0);
    }
    for n in samples {
        assert_eq!(format!("{:?}", band(n)), format!("{:?}", expected(n)), "{n}");
    }
}

#[test]
fn hash_is_fixed() {
    let by_hand = |x: i32, y: i32| {
        let mut h = (x as u32).wrapping_mul(73_856_093) ^ (y as u32).wrapping_mul(19_349_663);
        h ^= h >> 16;
        h = h.wrapping_mul(0x85ebca6b);
        h ^= h >> 13;
        h = h.wrapping_mul(0xc2b2ae35);
        h ^= h >> 16;
        h
    };
    assert_eq!(tile_hash(0, 0), 0);
    for (x, y) in [(1, 0), (0, 1), (5, 5), (-3, 7), (i32::MIN, i32::MAX), (19, 14)] {
        assert_eq!(tile_hash(x, y), by_hand(x, y));
    }
}

#[test]
fn off_the_map_there_is_nothing() {
    let world = World { tiles: vec![Terrain::Grass; (GRID_W * GRID_H) as usize] };
    assert!(world.get(-1, 0).is_none());
    assert!(world.get(0, -1).is_none());
    assert!(world.get(GRID_W, 0).is_none());
    assert!(world.get(0, GRID_H).is_none());
    assert!(world.get(GRID_W - 1, GRID_H - 1).is_some());
    assert_eq!((start_pos().x, start_pos().y), (START_X, START_Y));
}
