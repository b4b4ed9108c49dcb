use programming_game::grid::Direction;
use programming_game::inventory::{Inventory, ResourceKind};
use programming_game::program::{evaluate_condition, initial_yaw, Action, Condition};

#[test]
fn evaluate_carrying_true_when_kind_in_queue() {
    let mut inv = Inventory::default();
    inv.push(ResourceKind::Energy);
    assert!(evaluate_condition(
        Condition::Carrying(ResourceKind::Energy),
        &inv,
    ));
}

#[test]
fn evaluate_carrying_false_when_kind_absent() {
    let mut inv = Inventory::default();
    inv.push(ResourceKind::Grass);
    assert!(!evaluate_condition(
        Condition::Carrying(ResourceKind::Energy),
        &inv,
    ));
}

#[test]
fn workers_start_facing_their_first_move() {
    assert_eq!(initial_yaw(&vec![Action::Wait, Action::Drop]), 0);
    assert_eq!(
        initial_yaw(&vec![
            Action::Wait,
            Action::Move(Direction::East),
            Action::Move(Direction::West),
        ]),
        -1
    );
    assert_eq!(initial_yaw(&vec![Action::Move(Direction::South)]), 2);
    assert_eq!(initial_yaw(&vec![Action::Move(Direction::West)]), 1);
    assert_eq!(initial_yaw(&vec![Action::Move(Direction::North)]), 0);
}
