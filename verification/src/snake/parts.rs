//! A game put together from its parts, and the parts read back.

use crate::direction::Direction;
use crate::snake::{cell, cells, state_of, Snake};
use crate::tour::closes_tour;
use std::collections::VecDeque;
use vstd::prelude::*;

verus! {

impl Snake {
    /// The cells of the snake, head first.
    pub fn body(&self) -> (body: &VecDeque<(i32, i32)>)
        ensures
            cells(body@) == self@.body,
    {
        &self.body
    }

    /// The direction of the next step.
    pub fn direction(&self) -> (direction: Direction)
        ensures
            direction == self@.direction,
    {
        self.direction
    }

    /// The borders of the field: least x, least y, and one past the greatest
    /// x and y.
    pub fn borders(&self) -> (borders: (i32, i32, i32, i32))
        ensures
            borders.0 == self@.borders.0,
            borders.1 == self@.borders.1,
            borders.2 == self@.borders.2,
            borders.3 == self@.borders.3,
    {
        self.borders
    }

    /// The target.
    pub fn apple(&self) -> (apple: (i32, i32))
        ensures
            cell(apple) == self@.apple,
    {
        self.apple
    }

    /// The direction table, row by row over the interior.
    pub fn direction_path(&self) -> (table: &Vec<Direction>)
        ensures
            table@ == self@.table,
    {
        &self.direction_path
    }

    /// Whether the borders and the table are those of a square interior
    /// with a closed tour over it.
    fn grid_is_ok(&self) -> (ok: bool)
        ensures
            ok == self@.grid_ok(),
    {
        let width = self.borders.2 as i64 - self.borders.0 as i64;
        let height = self.borders.3 as i64 - self.borders.1 as i64;
        if width != height || width < 3 || width > 46342 {
            proof {
                if width == height && width > 46342 {
                    let n = self@.side();
                    assert(n * n > i32::MAX) by (nonlinear_arith)
                        requires
                            n > 46340,
                    ;
                }
            }
            return false;
        }
        let n = (width - 2) as usize;
        assert(n * n <= i32::MAX) by (nonlinear_arith)
            requires
                1 <= n <= 46340,
        ;
        if self.direction_path.len() != n * n {
            return false;
        }
        closes_tour(&self.direction_path, n)
    }

    /// Whether the snake lies in the interior and crosses itself nowhere.
    fn body_is_ok(&self) -> (ok: bool)
        requires
            self@.grid_ok(),
        ensures
            ok == {
                &&& forall|i: int|
                    0 <= i < self@.body.len() ==> self@.interior(#[trigger] self@.body[i])
                &&& self@.body.no_duplicates()
            },
    {
        let mut i: usize = 0;
        while i < self.body.len()
            invariant
                self@.grid_ok(),
                i <= self@.body.len(),
                forall|j: int| 0 <= j < i ==> self@.interior(#[trigger] self@.body[j]),
                forall|j: int, k: int| 0 <= j < k < i ==> self@.body[j] != self@.body[k],
            decreases self.body.len() - i,
        {
            let c = self.body[i];
            if !self.is_interior(c.0, c.1) {
                assert(!self@.interior(self@.body[i as int]));
                return false;
            }
            if self.covers(c.0, c.1, i) {
                proof {
                    let before = self@.body.take(i as int);
                    let j = choose|j: int| 0 <= j < before.len() && before[j] == cell(c);
                    assert(self@.body[j] == self@.body[i as int]);
                }
                return false;
            }
            proof {
                assert forall|j: int, k: int| 0 <= j < k < i + 1 implies self@.body[j]
                    != self@.body[k] by {
                    if k == i && self@.body[j] == self@.body[k] {
                        assert(self@.body.take(i as int)[j] == cell(c));
                    }
                }
            }
            i = i + 1;
        }
        true
    }

    /// Whether the state is well formed.
    fn is_valid(&self) -> (ok: bool)
        ensures
            ok == self@.wf(),
    {
        if !self.grid_is_ok() || !self.body_is_ok() {
            return false;
        }
        proof {
            self@.lemma_room();
            assert(self@.body.take(self@.body.len() as int) =~= self@.body);
        }
        let n = self.side();
        self.is_interior(self.apple.0, self.apple.1) && (self.body.len() == n * n || !self.covers(
            self.apple.0,
            self.apple.1,
            self.body.len(),
        ))
    }

    /// Puts a game together from its parts, if they make up a well-formed
    /// state: a square field whose interior carries the closed tour
    /// `direction_path`, a snake that lies in the interior and crosses
    /// itself nowhere, and a target on an interior cell that the snake does
    /// not cover unless it covers every cell.
    pub fn from_parts(
        borders: (i32, i32, i32, i32),
        body: Vec<(i32, i32)>,
        apple: (i32, i32),
        direction: Direction,
        direction_path: Vec<Direction>,
    ) -> (made: Option<Snake>)
        ensures
            made is Some <==> state_of(borders, body@, apple, direction, direction_path@).wf(),
            made matches Some(snake) ==> snake@ == state_of(
                borders,
                body@,
                apple,
                direction,
                direction_path@,
            ),
    {
        let mut cells: VecDeque<(i32, i32)> = VecDeque::new();
        let mut i: usize = 0;
        while i < body.len()
            invariant
                i <= body.len(),
                cells@ == body@.take(i as int),
            decreases body.len() - i,
        {
            cells.push_back(body[i]);
            i = i + 1;
        }
        assert(cells@ == body@);
        let snake = Snake { body: cells, direction, borders, apple, direction_path };
        if snake.is_valid() {
            Some(snake)
        } else {
            None
        }
    }
}

impl Clone for Snake {
    /// A second game in the same state.
    fn clone(&self) -> (copy: Snake)
        ensures
            copy@ == self@,
    {
        let mut body: VecDeque<(i32, i32)> = VecDeque::new();
        let mut i: usize = 0;
        while i < self.body.len()
            invariant
                i <= self.body@.len(),
                body@ == self.body@.take(i as int),
            decreases self.body.len() - i,
        {
            body.push_back(self.body[i]);
            i = i + 1;
        }
        let mut direction_path: Vec<Direction> = Vec::new();
        let mut j: usize = 0;
        while j < self.direction_path.len()
            invariant
                j <= self.direction_path@.len(),
                direction_path@ == self.direction_path@.take(j as int),
            decreases self.direction_path.len() - j,
        {
            direction_path.push(self.direction_path[j]);
            j = j + 1;
        }
        assert(body@ == self.body@);
        assert(direction_path@ == self.direction_path@);
        Snake {
            body,
            direction: self.direction,
            borders: self.borders,
            apple: self.apple,
            direction_path,
        }
    }
}

} // verus!
