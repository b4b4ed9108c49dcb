use programming_game::anim::{grid_to_world, shortest_turn, Facing, MoveAnim, Point};
use programming_game::grid::GridPos;

fn ground(pos: GridPos) -> (f32, f32) {
    let (hx, hz) = grid_to_world(pos);
    (hx as f32 / 2.0, hz as f32 / 2.0)
}

fn run_snapshot_sync_once(pos: GridPos, anim: &mut MoveAnim<f32>) {
    anim.snapshot();
    let (x, z) = ground(pos);
    anim.sync(x, z);
}

#[test]
fn interpolation_does_not_pop_back_when_grid_pos_unchanged() {
    let pos = GridPos { x: 1, y: 2 };
    let (x, z) = ground(pos);
    let initial = Point { x, y: 0.45, z };
    let mut anim = MoveAnim {
        prev: Point { x: 99.0, y: 0.45, z: 99.0 },
        current: initial,
    };

    run_snapshot_sync_once(pos, &mut anim);

    assert_eq!(anim.prev, initial);
    assert_eq!(anim.current, initial);
}

#[test]
fn interpolation_tracks_motion_across_one_tick() {
    let mut pos = GridPos { x: 1, y: 2 };
    let (x0, z0) = ground(pos);
    let initial = Point { x: x0, y: 0.45, z: z0 };
    let mut anim = MoveAnim { prev: initial, current: initial };

    run_snapshot_sync_once(pos, &mut anim);
    assert_eq!(anim.prev, initial);
    assert_eq!(anim.current, initial);

    pos.x = 2;
    run_snapshot_sync_once(pos, &mut anim);

    let (x1, z1) = ground(GridPos { x: 2, y: 2 });
    assert_eq!(anim.prev, initial, "prev must be where we were last tick");
    assert_eq!(
        anim.current,
        Point { x: x1, y: 0.45, z: z1 },
        "current must reflect the new GridPos"
    );
}

#[test]
fn snapshot_pins_facing_prev_to_current() {
    let mut f = Facing { prev_yaw: 0.0_f32, current_yaw: 1.5 };
    f.snapshot();
    assert_eq!(f.prev_yaw, 1.5);
    assert_eq!(f.current_yaw, 1.5);
}

#[test]
fn ground_plane_is_centred_on_the_map() {
    assert_eq!(grid_to_world(GridPos { x: 0, y: 0 }), (-19, -14));
    assert_eq!(grid_to_world(GridPos { x: 19, y: 14 }), (19, 14));
    assert_eq!(ground(GridPos { x: 0, y: 0 }), (-9.5, -7.0));
    assert_eq!(ground(GridPos { x: 5, y: 5 }), (-4.5, -2.0));
}

#[test]
fn turns_take_the_short_way() {
    assert_eq!(shortest_turn(0, 0), 0);
    assert_eq!(shortest_turn(0, 1), 1);
    assert_eq!(shortest_turn(1, -1), -2);
    assert_eq!(shortest_turn(-1, 1), 2);
    assert_eq!(shortest_turn(-1, 2), -1);
    assert_eq!(shortest_turn(2, -1), 1);
    assert_eq!(shortest_turn(0, 2), 2);
    assert_eq!(shortest_turn(0, 6), 2);
    assert_eq!(shortest_turn(6, 0), -2);
    assert_eq!(shortest_turn(i32::MIN, i32::MAX), -1);
}
