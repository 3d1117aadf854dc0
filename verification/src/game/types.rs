use vstd::prelude::*;

verus! {

/// Absolute value of a mathematical integer.
pub open spec fn abs_int(v: int) -> int {
    if v < 0 { -v } else { v }
}

/// A grid coordinate; `x` grows to the right and `y` grows downwards.
#[derive(Clone, Copy, Debug, PartialEq, Eq, Hash, Structural)]
pub struct Position {
    pub x: i32,
    pub y: i32,
}

impl Position {
    /// Whether the component-wise sum of two positions fits in `i32`.
    pub open spec fn can_add(self, other: Position) -> bool {
        &&& i32::MIN <= self.x + other.x <= i32::MAX
        &&& i32::MIN <= self.y + other.y <= i32::MAX
    }

    /// The Manhattan distance of two positions, as a mathematical integer.
    pub open spec fn spec_manhattan(self, other: Position) -> int {
        abs_int(self.x - other.x) + abs_int(self.y - other.y)
    }

    pub fn zero() -> (p: Position)
        ensures
            p.x == 0,
            p.y == 0,
    {
        Position { x: 0, y: 0 }
    }

    pub fn new(x: i32, y: i32) -> (p: Position)
        ensures
            p.x == x,
            p.y == y,
    {
        Position { x, y }
    }

    pub fn plus(&self, other: &Position) -> (p: Position)
        requires
            self.can_add(*other),
        ensures
            p.x == self.x + other.x,
            p.y == self.y + other.y,
    {
        Position { x: self.x + other.x, y: self.y + other.y }
    }

    pub fn manhattan_distance(&self, other: &Position) -> (d: i32)
        requires
            self.spec_manhattan(*other) <= i32::MAX,
        ensures
            d == self.spec_manhattan(*other),
    {
        let dx: i64 = self.x as i64 - other.x as i64;
        let dy: i64 = self.y as i64 - other.y as i64;
        let ax: i64 = if dx < 0 { -dx } else { dx };
        let ay: i64 = if dy < 0 { -dy } else { dy };
        (ax + ay) as i32
    }
}

/// One of the eight directions of movement on the grid.
#[derive(Clone, Copy, Debug, PartialEq, Eq, Structural)]
pub enum Direction {
    Up,
    Down,
    Left,
    Right,
    UpLeft,
    UpRight,
    DownLeft,
    DownRight,
}

/// The unit offset of a direction, as a pair `(dx, dy)`.
pub open spec fn dir_offset(d: Direction) -> (int, int) {
    match d {
        Direction::Up => (0, -1),
        Direction::Down => (0, 1),
        Direction::Left => (-1, 0),
        Direction::Right => (1, 0),
        Direction::UpLeft => (-1, -1),
        Direction::UpRight => (1, -1),
        Direction::DownLeft => (-1, 1),
        Direction::DownRight => (1, 1),
    }
}

/// The eight directions in their canonical order.
pub open spec fn all_directions() -> Seq<Direction> {
    seq![
        Direction::Up,
        Direction::Down,
        Direction::Left,
        Direction::Right,
        Direction::UpLeft,
        Direction::UpRight,
        Direction::DownLeft,
        Direction::DownRight,
    ]
}

impl Direction {
    pub fn to_offset(&self) -> (p: Position)
        ensures
            p.x == dir_offset(*self).0,
            p.y == dir_offset(*self).1,
    {
        match self {
            Direction::Up => Position::new(0, -1),
            Direction::Down => Position::new(0, 1),
            Direction::Left => Position::new(-1, 0),
            Direction::Right => Position::new(1, 0),
            Direction::UpLeft => Position::new(-1, -1),
            Direction::UpRight => Position::new(1, -1),
            Direction::DownLeft => Position::new(-1, 1),
            Direction::DownRight => Position::new(1, 1),
        }
    }

    pub fn all() -> (r: [Direction; 8])
        ensures
            r@ == all_directions(),
    {
        let r = [
            Direction::Up,
            Direction::Down,
            Direction::Left,
            Direction::Right,
            Direction::UpLeft,
            Direction::UpRight,
            Direction::DownLeft,
            Direction::DownRight,
        ];
        assert(r@ =~= all_directions());
        r
    }
}

} // verus!
