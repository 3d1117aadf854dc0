use vstd::prelude::*;

verus! {

/// A bare coordinate pair with only the two basic operations.
#[derive(Clone, Copy)]
pub struct Position {
    pub x: i32,
    pub y: i32,
}

impl Position {
    pub fn zero() -> (p: Position)
        ensures
            p.x == 0,
            p.y == 0,
    {
        Position { x: 0, y: 0 }
    }

    pub fn plus(&self, pos: &Position) -> (p: Position)
        requires
            i32::MIN <= self.x + pos.x <= i32::MAX,
            i32::MIN <= self.y + pos.y <= i32::MAX,
        ensures
            p.x == self.x + pos.x,
            p.y == self.y + pos.y,
    {
        Position { x: self.x + pos.x, y: self.y + pos.y }
    }
}

} // verus!
