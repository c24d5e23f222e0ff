use pint::types::{CodelChooser, Coordinates, Direction};

#[test]
fn four_turns_restore_direction() {
    for d in [Direction::RIGHT, Direction::DOWN, Direction::LEFT, Direction::UP] {
        assert_eq!(d.next().next().next().next(), d);
    }
    assert_eq!(Direction::RIGHT.next(), Direction::DOWN);
    assert_eq!(Direction::UP.next(), Direction::RIGHT);
}

#[test]
fn two_toggles_restore_chooser() {
    for c in [CodelChooser::LEFT, CodelChooser::RIGHT] {
        assert_eq!(c.toggle().toggle(), c);
        assert_ne!(c.toggle(), c);
    }
}

#[test]
fn direction_steps() {
    assert_eq!(Direction::RIGHT.cords(), Coordinates { x: 1, y: 0 });
    assert_eq!(Direction::DOWN.cords(), Coordinates { x: 0, y: 1 });
    assert_eq!(Direction::LEFT.cords(), Coordinates { x: -1, y: 0 });
    assert_eq!(Direction::UP.cords(), Coordinates { x: 0, y: -1 });
}
