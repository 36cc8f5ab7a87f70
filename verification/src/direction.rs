//! The four unit moves on the grid.

use vstd::prelude::*;

verus! {

/// A unit move. `Up` raises the second coordinate, `Right` the first.
#[derive(PartialEq, Eq, Structural, PartialOrd, Ord, Clone, Copy, Debug)]
pub enum Direction {
    Up,
    Down,
    Left,
    Right,
}

/// The cell one unit move away from `c`.
pub open spec fn shift(c: (int, int), d: Direction) -> (int, int) {
    match d {
        Direction::Up => (c.0, c.1 + 1),
        Direction::Down => (c.0, c.1 - 1),
        Direction::Left => (c.0 - 1, c.1),
        Direction::Right => (c.0 + 1, c.1),
    }
}

impl Direction {
    /// The move that undoes this one.
    pub open spec fn opposite(self) -> Direction {
        match self {
            Direction::Up => Direction::Down,
            Direction::Down => Direction::Up,
            Direction::Left => Direction::Right,
            Direction::Right => Direction::Left,
        }
    }

    /// The direction that choice `k` of three turns a cell heading `self` to:
    /// the two perpendicular moves first, then `self` again.
    pub open spec fn turned(self, k: int) -> Direction {
        if k == 2 {
            self
        } else {
            match self {
                Direction::Up | Direction::Down => if k == 0 {
                    Direction::Left
                } else {
                    Direction::Right
                },
                Direction::Left | Direction::Right => if k == 0 {
                    Direction::Up
                } else {
                    Direction::Down
                },
            }
        }
    }

    /// The cell one unit move in this direction away from `c`.
    pub fn moved(self, c: (i32, i32)) -> (to: (i32, i32))
        requires
            i32::MIN < c.0 < i32::MAX,
            i32::MIN < c.1 < i32::MAX,
        ensures
            (to.0 as int, to.1 as int) == shift((c.0 as int, c.1 as int), self),
    {
        match self {
            Direction::Up => (c.0, c.1 + 1),
            Direction::Down => (c.0, c.1 - 1),
            Direction::Left => (c.0 - 1, c.1),
            Direction::Right => (c.0 + 1, c.1),
        }
    }

    /// Turns a cell's direction by one of three choices. No choice yields the
    /// opposite of `self`, and every other direction is yielded by one of them.
    pub fn alternative(self, k: usize) -> (d: Direction)
        requires
            k < 3,
        ensures
            d == self.turned(k as int),
            d != self.opposite(),
    {
        match self {
            Direction::Up => match k {
                0 => Direction::Left,
                1 => Direction::Right,
                _ => Direction::Up,
            },
            Direction::Down => match k {
                0 => Direction::Left,
                1 => Direction::Right,
                _ => Direction::Down,
            },
            Direction::Left => match k {
                0 => Direction::Up,
                1 => Direction::Down,
                _ => Direction::Left,
            },
            Direction::Right => match k {
                0 => Direction::Up,
                1 => Direction::Down,
                _ => Direction::Right,
            },
        }
    }
}

} // verus!
