use ayz::game::types::{Direction, Position};

#[test]
fn position_zero() {
    let p = Position::zero();
    assert_eq!(p.x, 0);
    assert_eq!(p.y, 0);
}

#[test]
fn position_new() {
    let p = Position::new(3, -7);
    assert_eq!(p.x, 3);
    assert_eq!(p.y, -7);
}

#[test]
fn position_plus() {
    let a = Position::new(2, 3);
    let b = Position::new(-1, 5);
    let c = a.plus(&b);
    assert_eq!(c, Position::new(1, 8));
}

#[test]
fn position_plus_with_negative() {
    let a = Position::new(-3, -4);
    let b = Position::new(-2, 1);
    assert_eq!(a.plus(&b), Position::new(-5, -3));
}

#[test]
fn manhattan_distance_same_position() {
    let p = Position::new(5, 5);
    assert_eq!(p.manhattan_distance(&p), 0);
}

#[test]
fn manhattan_distance_straight() {
    let a = Position::new(0, 0);
    let b = Position::new(3, 0);
    assert_eq!(a.manhattan_distance(&b), 3);
}

#[test]
fn manhattan_distance_diagonal() {
    let a = Position::new(1, 1);
    let b = Position::new(4, 5);
    assert_eq!(a.manhattan_distance(&b), 7);
}

#[test]
fn direction_to_offset_cardinal() {
    assert_eq!(Direction::Up.to_offset(), Position::new(0, -1));
    assert_eq!(Direction::Down.to_offset(), Position::new(0, 1));
    assert_eq!(Direction::Left.to_offset(), Position::new(-1, 0));
    assert_eq!(Direction::Right.to_offset(), Position::new(1, 0));
}

#[test]
fn direction_to_offset_diagonal() {
    assert_eq!(Direction::UpLeft.to_offset(), Position::new(-1, -1));
    assert_eq!(Direction::UpRight.to_offset(), Position::new(1, -1));
    assert_eq!(Direction::DownLeft.to_offset(), Position::new(-1, 1));
    assert_eq!(Direction::DownRight.to_offset(), Position::new(1, 1));
}

#[test]
fn direction_all_returns_eight() {
    assert_eq!(Direction::all().len(), 8);
}

#[test]
fn manhattan_distance_is_symmetric() {
    let a = Position::new(-2, 7);
    let b = Position::new(4, -1);
    assert_eq!(a.manhattan_distance(&b), b.manhattan_distance(&a));
    assert_eq!(a.manhattan_distance(&b), 14);
}

#[test]
fn zero_is_neutral_for_plus() {
    let a = Position::new(9, -4);
    assert_eq!(a.plus(&Position::zero()), a);
}

#[test]
fn etc_position_plus() {
    let a = ayz::etc::Position { x: 1, y: 2 };
    let b = ayz::etc::Position::zero();
    let c = a.plus(&b);
    assert_eq!((c.x, c.y), (1, 2));
}
