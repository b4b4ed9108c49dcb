use std::collections::VecDeque;

use programming_game::anim::Facing;
use programming_game::grid::{Direction, GridPos, GRID_H, GRID_W};
use programming_game::motion::{path_destination, step_in_direction, try_walk};
use programming_game::tiles::TileSet;
use programming_game::world::{Terrain, World};

fn flat_grass_world() -> World {
    World {
        tiles: vec![Terrain::Grass; (GRID_W * GRID_H) as usize],
    }
}

fn place(world: &mut World, x: i32, y: i32, t: Terrain) {
    world.tiles[World::idx(x, y)] = t;
}

#[test]
fn try_walk_moves_into_grass() {
    let w = flat_grass_world();
    assert_eq!(
        try_walk(&w, GridPos { x: 5, y: 5 }, Direction::East),
        Some(GridPos { x: 6, y: 5 })
    );
}

#[test]
fn try_walk_is_blocked_by_walls() {
    let mut w = flat_grass_world();
    place(&mut w, 6, 5, Terrain::Wall);
    assert_eq!(try_walk(&w, GridPos { x: 5, y: 5 }, Direction::East), None);
}

#[test]
fn try_walk_is_blocked_by_water() {
    let mut w = flat_grass_world();
    place(&mut w, 6, 5, Terrain::Water);
    assert_eq!(try_walk(&w, GridPos { x: 5, y: 5 }, Direction::East), None);
}

#[test]
fn try_walk_is_blocked_at_grid_boundary() {
    let w = flat_grass_world();
    assert_eq!(
        try_walk(&w, GridPos { x: GRID_W - 1, y: 5 }, Direction::East),
        None
    );
}

#[test]
fn step_in_direction_blocked_by_occupied_destination() {
    let w = flat_grass_world();
    let mut pos = GridPos { x: 5, y: 5 };
    let mut facing = Facing {
        prev_yaw: 0,
        current_yaw: 0,
    };
    let mut occupied = TileSet::new();
    occupied.insert(pos);
    occupied.insert(GridPos { x: 5, y: 4 });

    let moved =
        step_in_direction(&w, &mut pos, &mut facing, Direction::North, &mut occupied);

    assert!(!moved, "blocked step should report no movement");
    assert_eq!(pos, GridPos { x: 5, y: 5 });
    assert_eq!(facing.current_yaw, Direction::North.yaw());
    assert!(occupied.contains(&GridPos { x: 5, y: 5 }));
    assert!(occupied.contains(&GridPos { x: 5, y: 4 }));
}

#[test]
fn step_in_direction_moves_into_free_tile_and_updates_set() {
    let w = flat_grass_world();
    let mut pos = GridPos { x: 5, y: 5 };
    let mut facing = Facing {
        prev_yaw: 0,
        current_yaw: 0,
    };
    let mut occupied = TileSet::new();
    occupied.insert(pos);

    let moved =
        step_in_direction(&w, &mut pos, &mut facing, Direction::North, &mut occupied);

    assert!(moved, "successful step should report movement");
    assert_eq!(pos, GridPos { x: 5, y: 4 });
    assert!(!occupied.contains(&GridPos { x: 5, y: 5 }), "old tile freed");
    assert!(occupied.contains(&GridPos { x: 5, y: 4 }), "new tile claimed");
}

#[test]
fn walls_turn_but_do_not_move() {
    let mut w = flat_grass_world();
    place(&mut w, 4, 5, Terrain::Wall);
    let mut pos = GridPos { x: 5, y: 5 };
    let mut facing = Facing { prev_yaw: 0, current_yaw: 0 };
    let mut occupied = TileSet::new();
    occupied.insert(pos);
    assert!(!step_in_direction(&w, &mut pos, &mut facing, Direction::West, &mut occupied));
    assert_eq!(pos, GridPos { x: 5, y: 5 });
    assert_eq!((facing.prev_yaw, facing.current_yaw), (0, 1));
}

#[test]
fn plans_end_where_their_steps_lead() {
    let start = GridPos { x: 5, y: 5 };
    assert_eq!(path_destination(start, &VecDeque::new()), start);
    let plan = VecDeque::from(vec![
        Direction::North,
        Direction::East,
        Direction::East,
        Direction::South,
        Direction::South,
        Direction::West,
    ]);
    assert_eq!(path_destination(start, &plan), GridPos { x: 6, y: 6 });
}
