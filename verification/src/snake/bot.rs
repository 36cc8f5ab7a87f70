//! The decision of each tick: follow the tour, or leave it for the shortcut
//! that brings the target nearest without running into the body.

use crate::direction::Direction;
use crate::snake::{cell, Snake};
use vstd::prelude::*;

verus! {

impl Snake {
    /// Weighs the move `d` against the best distance so far: the distance to
    /// the target by way of it, if the move is safe and that distance is
    /// less than `best`.
    fn weigh(&self, d: Direction, best: u32) -> (nearer: Option<u32>)
        requires
            self@.wf(),
            self@.body.len() > 0,
        ensures
            nearer matches Some(v) ==> self@.safe_move(d) && v == self@.distance_via(d) && v < best,
            nearer is None ==> !(self@.safe_move(d) && self@.distance_via(d) < best),
    {
        proof {
            self@.lemma_side_bound();
            self@.lemma_room();
            assert(self@.interior(self@.body[0]));
            assert(self@.body.take(self@.body.len() as int) =~= self@.body);
        }
        let snake_len = self.body.len() as u32;
        let c = d.moved(self.body[0]);
        if !self.is_interior(c.0, c.1) {
            return None;
        }
        let steps = self.path_len(c.0, c.1) + 1;
        if steps < best && !self.covers(c.0, c.1, self.body.len()) && snake_len
            <= self.free_path_len(c.0, c.1, snake_len) {
            Some(steps)
        } else {
            None
        }
    }

    /// The direction for the next step.
    ///
    /// It is the tour's own direction at the head unless a shortcut exists:
    /// a move to a free interior cell from which the target is nearer than
    /// along the tour and the free run is no shorter than the snake. Of the
    /// shortcuts the one with the least distance is taken; the moves are
    /// weighed in the order up, down, left, right, and a later one replaces
    /// an earlier one only where it is strictly nearer.
    pub fn bot_move(&self) -> (dir: Direction)
        requires
            self@.wf(),
            self@.body.len() > 0,
        ensures
            self@.decides(dir),
    {
        proof {
            assert(self@.interior(self@.body[0]));
        }
        let head = self.body[0];
        let mut dir = self.path_direction(head.0, head.1);
        let mut best = self.path_len(head.0, head.1);
        if let Some(steps) = self.weigh(Direction::Up, best) {
            best = steps;
            dir = Direction::Up;
        }
        if let Some(steps) = self.weigh(Direction::Down, best) {
            best = steps;
            dir = Direction::Down;
        }
        if let Some(steps) = self.weigh(Direction::Left, best) {
            best = steps;
            dir = Direction::Left;
        }
        if self.weigh(Direction::Right, best).is_some() {
            dir = Direction::Right;
        }
        proof {
            assert forall|e: Direction| #[trigger] self@.shortcut(e) implies {
                &&& self@.shortcut(dir)
                &&& self@.distance_via(dir) <= self@.distance_via(e)
                &&& self@.distance_via(dir) == self@.distance_via(e) ==> crate::model::SnakeView::order(dir)
                    <= crate::model::SnakeView::order(e)
            } by {
                match e {
                    Direction::Up => {},
                    Direction::Down => {},
                    Direction::Left => {},
                    Direction::Right => {},
                }
            }
        }
        dir
    }
}

} // verus!
