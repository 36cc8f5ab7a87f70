//! The snake on its grid: the state that the simulation steps and the
//! decision reads.

use crate::direction::Direction;
use crate::model::SnakeView;
use crate::search::is_loosened;
use std::collections::VecDeque;
use vstd::prelude::*;

mod bot;
mod metrics;
mod parts;
mod step;

verus! {

/// A game: the snake, the target, the field and the tour laid over it.
pub struct Snake {
    body: VecDeque<(i32, i32)>,
    direction: Direction,
    borders: (i32, i32, i32, i32),
    apple: (i32, i32),
    direction_path: Vec<Direction>,
}

/// A cell of the field as a pair of integers.
pub open spec fn cell(c: (i32, i32)) -> (int, int) {
    (c.0 as int, c.1 as int)
}

/// A sequence of cells as pairs of integers.
pub open spec fn cells(s: Seq<(i32, i32)>) -> Seq<(int, int)> {
    s.map_values(|c: (i32, i32)| cell(c))
}

/// The state that the given parts make up.
pub open spec fn state_of(
    borders: (i32, i32, i32, i32),
    body: Seq<(i32, i32)>,
    apple: (i32, i32),
    direction: Direction,
    table: Seq<Direction>,
) -> SnakeView {
    SnakeView {
        body: cells(body),
        direction,
        borders: (borders.0 as int, borders.1 as int, borders.2 as int, borders.3 as int),
        apple: cell(apple),
        table,
    }
}

impl View for Snake {
    type V = SnakeView;

    closed spec fn view(&self) -> SnakeView {
        state_of(self.borders, self.body@, self.apple, self.direction, self.direction_path@)
    }
}

/// Borders that a game can start on: the field is square, its interior has
/// an even side and holds the cells `(0, 0)` and `(1, 1)`, and the interior
/// cells can be counted in an `i32`.
pub open spec fn valid_borders(borders: (i32, i32, i32, i32)) -> bool {
    let side = borders.2 - borders.0 - 2;
    &&& borders.3 - borders.1 == borders.2 - borders.0
    &&& side % 2 == 0
    &&& side * side <= i32::MAX
    &&& borders.0 < 0 && 2 < borders.2
    &&& borders.1 < 0 && 2 < borders.3
}

impl Snake {
    /// Starts a game on the field with the given borders: least x, least y,
    /// and one past the greatest x and y, the outer ring being wall. The
    /// snake is the one cell `(0, 0)`, it heads up, the target lies on
    /// `(1, 1)`, and a closed tour is built for the interior.
    pub fn new(borders: (i32, i32, i32, i32)) -> (snake: Snake)
        requires
            valid_borders(borders),
        ensures
            snake@.wf(),
            snake@.body == seq![(0int, 0int)],
            snake@.direction == Direction::Up,
            snake@.borders == (
                borders.0 as int,
                borders.1 as int,
                borders.2 as int,
                borders.3 as int,
            ),
            snake@.apple == (1int, 1int),
            is_loosened(snake@.table, snake@.side(), snake@.capacity() as nat),
    {
        let ghost side = borders.2 - borders.0 - 2;
        assert(side <= 46340) by (nonlinear_arith)
            requires
                side >= 0,
                side * side <= 2147483647,
        ;
        let mut body = VecDeque::new();
        body.push_back((0, 0));
        let snake = Snake {
            body,
            direction: Direction::Up,
            borders,
            apple: (1, 1),
            direction_path: Snake::init_path_direction((borders.2 - borders.0 - 2) as u32),
        };
        proof {
            assert(snake@.body =~= seq![(0int, 0int)]);
            assert(snake@.interior(snake@.body[0]));
            assert(snake@.body.contains((1int, 1int)) ==> snake@.body[0] == (1int, 1int));
        }
        snake
    }

    /// The side of the interior.
    pub(crate) fn side(&self) -> (n: usize)
        requires
            self@.grid_ok(),
        ensures
            n == self@.side(),
            n >= 1,
            n * n == self@.capacity(),
            n * n == self@.table.len(),
    {
        proof {
            self@.lemma_side_bound();
        }
        (self.borders.2 - self.borders.0 - 2) as usize
    }

    /// Whether `(x, y)` is an interior cell.
    pub(crate) fn is_interior(&self, x: i32, y: i32) -> (inside: bool)
        requires
            self@.grid_ok(),
        ensures
            inside == self@.interior(cell((x, y))),
    {
        proof {
            self@.lemma_side_bound();
        }
        self.borders.0 < x && x < self.borders.2 - 1 && self.borders.1 < y && y < self.borders.3
            - 1
    }

    /// Whether one of the first `count` cells of the body is `(x, y)`.
    pub(crate) fn covers(&self, x: i32, y: i32, count: usize) -> (found: bool)
        requires
            count <= self@.body.len(),
        ensures
            found == self@.body.take(count as int).contains(cell((x, y))),
    {
        let mut i: usize = 0;
        while i < count
            invariant
                i <= count,
                count <= self@.body.len(),
                forall|j: int| 0 <= j < i ==> #[trigger] self@.body[j] != cell((x, y)),
            decreases count - i,
        {
            let c = self.body[i];
            if c.0 == x && c.1 == y {
                assert(self@.body.take(count as int)[i as int] == cell((x, y)));
                return true;
            }
            i = i + 1;
        }
        assert forall|j: int| 0 <= j < count implies self@.body.take(count as int)[j] != cell(
            (x, y),
        ) by {
            assert(self@.body.take(count as int)[j] == self@.body[j]);
        }
        false
    }
}

} // verus!
