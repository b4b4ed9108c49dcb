use programming_game::grid::{cardinal_dirs, Direction, GridPos};
use programming_game::tiles::TileSet;

#[test]
fn directions_are_tried_in_a_fixed_order() {
    assert_eq!(
        cardinal_dirs(),
        [Direction::North, Direction::South, Direction::East, Direction::West]
    );
}

#[test]
fn directions_point_and_turn_as_drawn() {
    assert_eq!(Direction::North.delta(), (0, -1));
    assert_eq!(Direction::South.delta(), (0, 1));
    assert_eq!(Direction::East.delta(), (1, 0));
    assert_eq!(Direction::West.delta(), (-1, 0));
    assert_eq!(Direction::North.yaw(), 0);
    assert_eq!(Direction::South.yaw(), 2);
    assert_eq!(Direction::East.yaw(), -1);
    assert_eq!(Direction::West.yaw(), 1);
}

#[test]
fn tile_sets_tell_all_positions_apart() {
    let ends = [i32::MIN, i32::MIN + 1, -1, 0, 1, i32::MAX - 1, i32::MAX];
    for x in ends {
        for y in ends {
            let mut set = TileSet::new();
            assert!(set.insert(GridPos { x, y }));
            assert!(!set.insert(GridPos { x, y }));
            for u in ends {
                for v in ends {
                    assert_eq!(set.contains(&GridPos { x: u, y: v }), (u, v) == (x, y));
                }
            }
            assert!(set.remove(&GridPos { x, y }));
            assert!(!set.remove(&GridPos { x, y }));
            assert!(!set.contains(&GridPos { x, y }));
        }
    }
}
