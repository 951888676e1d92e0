use evobrain::rat::Rat;
use evobrain::world::{Coord, Coordinate, Direction, Offset};

#[test]
fn rat_arithmetic_is_exact() {
    let half = Rat::new(1, 2);
    let third = Rat::new(1, 3);
    assert_eq!(half.checked_add(&third), Some(Rat::new(5, 6)));
    assert_eq!(half.checked_mul(&third), Some(Rat::new(1, 6)));
    assert_eq!(Rat::new(5, 6).checked_div_int(2), Some(Rat::new(5, 12)));
    assert_eq!(half.neg(), Rat::new(-1, 2));
    assert!(third.lt(&half));
    assert!(!half.lt(&third));
    // Value comparison sees through different representations.
    assert!(!Rat::new(2, 4).lt(&half));
    assert!(!half.lt(&Rat::new(2, 4)));
}

#[test]
fn rat_overflow_is_detected() {
    let big = Rat::new(i64::MAX, 1);
    assert_eq!(big.checked_add(&Rat::new(1, 1)), None);
    assert_eq!(big.checked_mul(&big), None);
    assert_eq!(Rat::new(1, i64::MAX).checked_div_int(2), None);
    assert_eq!(big.checked_add(&Rat::new(0, 1)), Some(big));
}

#[test]
fn direction_turns() {
    assert_eq!(Direction::Up.left(), Direction::Left);
    assert_eq!(Direction::Left.left(), Direction::Down);
    assert_eq!(Direction::Up.right(), Direction::Right);
    assert_eq!(Direction::Right.right(), Direction::Down);
    assert_eq!(Direction::Up.opposite(), Direction::Down);
    assert_eq!(Direction::Left.opposite(), Direction::Right);
    // A left turn and a right turn cancel.
    for d in [Direction::Up, Direction::Down, Direction::Left, Direction::Right] {
        assert_eq!(d.left().right(), d);
        assert_eq!(d.opposite().opposite(), d);
    }
}

#[test]
fn coords_hold_their_fields() {
    let c = Coord::new(3, 9);
    assert_eq!((c.x, c.y), (3, 9));
    let c2 = Coordinate::new(7, 2);
    assert_eq!((c2.x, c2.y), (7, 2));
}

#[test]
fn offset_construction_and_distance() {
    assert_eq!(Offset::new_x(5).distance(), 5);
    assert_eq!(Offset::new_y(-4).distance(), -4);
    assert!(Offset::new_x(0).blank());
    assert!(!Offset::new_y(2).blank());
    assert_eq!(Offset::from_direction(Direction::Up), Offset::Y(-1));
    assert_eq!(Offset::from_direction(Direction::Down), Offset::Y(1));
    assert_eq!(Offset::from_direction(Direction::Left), Offset::X(-1));
    assert_eq!(Offset::from_direction(Direction::Right), Offset::X(1));
}

#[test]
fn offset_signum_steps_toward_zero() {
    let mut o = Offset::new_x(3);
    assert_eq!(o.signum(), Offset::X(1));
    assert_eq!(o, Offset::X(2));
    assert_eq!(o.signum(), Offset::X(1));
    assert_eq!(o.signum(), Offset::X(1));
    assert_eq!(o, Offset::X(0));
    assert_eq!(o.signum(), Offset::X(0));
    assert_eq!(o, Offset::X(0));

    let mut n = Offset::new_y(-2);
    assert_eq!(n.signum(), Offset::Y(-1));
    assert_eq!(n, Offset::Y(-1));
    assert_eq!(n.signum(), Offset::Y(-1));
    assert!(n.blank());
}
