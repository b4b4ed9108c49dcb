use std::collections::VecDeque;

use programming_game::grid::{Direction, GridPos, GRID_H, GRID_W};
use programming_game::path::{find_path, worker_start_positions};
use programming_game::tiles::TileSet;
use programming_game::world::{Terrain, World};

fn flat_grass_world() -> World {
    World {
        tiles: vec![Terrain::Grass; (GRID_W * GRID_H) as usize],
    }
}

fn place(world: &mut World, x: i32, y: i32, t: Terrain) {
    world.tiles[World::idx(x, y)] = t;
}

#[test]
fn find_path_returns_empty_when_start_is_goal() {
    let w = flat_grass_world();
    let p = find_path(
        &w,
        GridPos { x: 5, y: 5 },
        |p| p == GridPos { x: 5, y: 5 },
        &TileSet::new(),
    );
    assert_eq!(p, Some(VecDeque::new()));
}

#[test]
fn find_path_walks_a_straight_line_on_open_grass() {
    let w = flat_grass_world();
    let p = find_path(
        &w,
        GridPos { x: 5, y: 5 },
        |p| p == GridPos { x: 8, y: 5 },
        &TileSet::new(),
    )
    .unwrap();
    assert_eq!(p, VecDeque::from(vec![Direction::East; 3]));
}

#[test]
fn find_path_detours_around_a_wall() {
    let mut w = flat_grass_world();
    place(&mut w, 6, 5, Terrain::Wall);
    let p = find_path(
        &w,
        GridPos { x: 5, y: 5 },
        |p| p == GridPos { x: 7, y: 5 },
        &TileSet::new(),
    )
    .unwrap();
    assert_eq!(p.len(), 4);
}

#[test]
fn find_path_returns_none_when_target_is_walled_in() {
    let mut w = flat_grass_world();
    for (dx, dy) in [(0, 1), (0, -1), (1, 0), (-1, 0)] {
        place(&mut w, 7 + dx, 5 + dy, Terrain::Wall);
    }
    let p = find_path(
        &w,
        GridPos { x: 5, y: 5 },
        |p| p == GridPos { x: 7, y: 5 },
        &TileSet::new(),
    );
    assert_eq!(p, None);
}

#[test]
fn find_path_returns_none_when_no_cell_matches() {
    let w = flat_grass_world();
    let p = find_path(&w, GridPos { x: 5, y: 5 }, |_| false, &TileSet::new());
    assert_eq!(p, None);
}

#[test]
fn find_path_picks_the_closest_of_multiple_targets() {
    let w = flat_grass_world();
    let near = GridPos { x: 5, y: 6 };
    let far = GridPos { x: 5, y: 12 };
    let p = find_path(
        &w,
        GridPos { x: 5, y: 5 },
        |p| p == near || p == far,
        &TileSet::new(),
    )
    .unwrap();
    assert_eq!(p, VecDeque::from(vec![Direction::South]));
}

#[test]
fn worker_start_positions_returns_start_first() {
    let w = flat_grass_world();
    let starts =
        worker_start_positions(&w, GridPos { x: 5, y: 5 }, 1, &TileSet::new());
    assert_eq!(starts, vec![GridPos { x: 5, y: 5 }]);
}

#[test]
fn worker_start_positions_returns_n_distinct_cells() {
    let w = flat_grass_world();
    let starts =
        worker_start_positions(&w, GridPos { x: 5, y: 5 }, 4, &TileSet::new());
    assert_eq!(starts.len(), 4);
    for i in 0..starts.len() {
        for j in (i + 1)..starts.len() {
            assert_ne!(starts[i], starts[j], "duplicate start at {i} and {j}");
        }
    }
    assert_eq!(starts[0], GridPos { x: 5, y: 5 });
}

#[test]
fn worker_start_positions_skips_impassable_neighbors() {
    let mut w = flat_grass_world();
    place(&mut w, 6, 5, Terrain::Wall);
    place(&mut w, 4, 5, Terrain::Water);
    let starts =
        worker_start_positions(&w, GridPos { x: 5, y: 5 }, 3, &TileSet::new());
    assert_eq!(starts.len(), 3);
    for p in &starts {
        let t = w.get(p.x, p.y).unwrap();
        assert!(t.passable(), "start {p:?} landed on impassable {t:?}");
        assert_ne!(*p, GridPos { x: 6, y: 5 });
        assert_ne!(*p, GridPos { x: 4, y: 5 });
    }
}

#[test]
fn worker_start_positions_caps_when_not_enough_passable_cells() {
    let mut w = flat_grass_world();
    for (dx, dy) in [(1, 0), (-1, 0), (0, 1), (0, -1)] {
        place(&mut w, 5 + dx, 5 + dy, Terrain::Wall);
    }
    let starts =
        worker_start_positions(&w, GridPos { x: 5, y: 5 }, 8, &TileSet::new());
    assert_eq!(starts, vec![GridPos { x: 5, y: 5 }]);
}

#[test]
fn worker_start_positions_skips_excluded_tiles_but_expands_through_them() {
    let mut w = flat_grass_world();
    place(&mut w, 5, 6, Terrain::Wall);
    place(&mut w, 6, 5, Terrain::Wall);
    place(&mut w, 4, 5, Terrain::Wall);
    let mut excluded = TileSet::new();
    excluded.insert(GridPos { x: 5, y: 4 });
    let starts = worker_start_positions(&w, GridPos { x: 5, y: 5 }, 3, &excluded);
    assert_eq!(starts.len(), 3, "starts={starts:?}");
    assert_eq!(starts[0], GridPos { x: 5, y: 5 });
    assert!(
        !starts.contains(&GridPos { x: 5, y: 4 }),
        "excluded tile should not appear in starts"
    );
    assert!(
        starts.contains(&GridPos { x: 5, y: 3 }),
        "expected (5,3) reachable via excluded (5,4); starts={starts:?}"
    );
}

#[test]
fn ties_go_to_the_first_direction() {
    let w = flat_grass_world();
    let p = find_path(
        &w,
        GridPos { x: 5, y: 5 },
        |p| p == GridPos { x: 7, y: 3 },
        &TileSet::new(),
    )
    .unwrap();
    assert_eq!(
        p,
        VecDeque::from(vec![
            Direction::North,
            Direction::North,
            Direction::East,
            Direction::East,
        ])
    );
}

#[test]
fn blocked_cells_are_walked_around() {
    let w = flat_grass_world();
    let mut blocked = TileSet::new();
    blocked.insert(GridPos { x: 6, y: 5 });
    let p = find_path(
        &w,
        GridPos { x: 5, y: 5 },
        |p| p == GridPos { x: 7, y: 5 },
        &blocked,
    )
    .unwrap();
    assert_eq!(p.len(), 4);
    blocked.insert(GridPos { x: 7, y: 5 });
    let p = find_path(
        &w,
        GridPos { x: 5, y: 5 },
        |p| p == GridPos { x: 7, y: 5 },
        &blocked,
    );
    assert_eq!(p, None);
}

#[test]
fn start_positions_come_nearest_first() {
    let w = flat_grass_world();
    let starts = worker_start_positions(&w, GridPos { x: 5, y: 5 }, 6, &TileSet::new());
    assert_eq!(
        starts,
        vec![
            GridPos { x: 5, y: 5 },
            GridPos { x: 5, y: 4 },
            GridPos { x: 5, y: 6 },
            GridPos { x: 6, y: 5 },
            GridPos { x: 4, y: 5 },
            GridPos { x: 5, y: 3 },
        ]
    );
}

#[test]
fn no_start_positions_on_closed_ground() {
    let mut w = flat_grass_world();
    place(&mut w, 5, 5, Terrain::Water);
    assert!(worker_start_positions(&w, GridPos { x: 5, y: 5 }, 3, &TileSet::new()).is_empty());
    assert!(worker_start_positions(&w, GridPos { x: 0, y: 0 }, 0, &TileSet::new()).is_empty());
    assert!(worker_start_positions(&w, GridPos { x: -1, y: 0 }, 3, &TileSet::new()).is_empty());
}

#[test]
fn an_excluded_start_takes_its_place() {
    let w = flat_grass_world();
    let start = GridPos { x: 5, y: 5 };
    let mut excluded = TileSet::new();
    excluded.insert(start);
    let starts = worker_start_positions(&w, start, 4, &excluded);
    assert_eq!(
        starts,
        vec![
            GridPos { x: 5, y: 4 },
            GridPos { x: 5, y: 6 },
            GridPos { x: 6, y: 5 },
        ]
    );
    assert!(!starts.contains(&start));
    assert!(worker_start_positions(&w, start, 1, &excluded).is_empty());
    assert!(worker_start_positions(&w, start, 0, &excluded).is_empty());
}

#[test]
fn an_accepted_start_may_be_anywhere() {
    let w = flat_grass_world();
    for (x, y) in [(i32::MAX, 0), (i32::MIN, i32::MAX), (-7, 3)] {
        let p = find_path(&w, GridPos { x, y }, |_| true, &TileSet::new());
        assert_eq!(p, Some(VecDeque::new()));
    }
}
