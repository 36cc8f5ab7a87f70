//! One step of the simulation, and the draw of a new target.

use crate::direction::Direction;
use crate::random::random_below;
use crate::snake::{cell, Snake};
use vstd::prelude::*;

verus! {

impl Snake {
    /// The interior cell over the table's index `i`.
    pub(crate) fn cell_of(&self, i: usize) -> (c: (i32, i32))
        requires
            self@.grid_ok(),
            i < self@.capacity(),
        ensures
            cell(c) == self@.cell_at(i as int),
            self@.interior(cell(c)),
    {
        let n = self.side();
        proof {
            self@.lemma_side_bound();
            self@.lemma_cell_at(i as int);
            assert(0 <= i as int / n as int && (i as int / n as int) < n && 0 <= i as int % n as int
                && (i as int % n as int) < n) by (nonlinear_arith)
                requires
                    0 <= i < n * n,
                    n >= 1,
            ;
        }
        let col = (i % n) as i32;
        let row = (i / n) as i32;
        (self.borders.0 + 1 + col, self.borders.1 + 1 + row)
    }

    /// Whether the interior cell `(x, y)` is off the body and is not the
    /// cell `(skip_x, skip_y)`.
    fn is_vacant(&self, skip_x: i32, skip_y: i32, x: i32, y: i32) -> (vacant: bool)
        requires
            self@.grid_ok(),
            self@.interior(cell((x, y))),
        ensures
            vacant == self@.vacant(cell((skip_x, skip_y)), cell((x, y))),
    {
        assert(self@.body.take(self@.body.len() as int) =~= self@.body);
        !(x == skip_x && y == skip_y) && !self.covers(x, y, self.body.len())
    }

    /// The number of interior cells that are off the body and are not the
    /// cell `(skip_x, skip_y)`.
    pub fn vacant_cells(&self, skip_x: i32, skip_y: i32) -> (count: usize)
        requires
            self@.grid_ok(),
        ensures
            count == self@.vacant_count(cell((skip_x, skip_y))),
            count <= self@.capacity(),
    {
        let n = self.side();
        let total = n * n;
        let mut count: usize = 0;
        let mut i: usize = 0;
        while i < total
            invariant
                self@.grid_ok(),
                total == self@.capacity(),
                i <= total,
                count <= i,
                count == self@.vacant_below(cell((skip_x, skip_y)), i as nat),
            decreases total - i,
        {
            let c = self.cell_of(i);
            if self.is_vacant(skip_x, skip_y, c.0, c.1) {
                count = count + 1;
            }
            i = i + 1;
        }
        count
    }

    /// Vacant cell number `k`, counted from 0 row by row: the interior cell
    /// off the body and other than `(skip_x, skip_y)` that has exactly `k`
    /// such cells before it.
    pub fn nth_vacant_cell(&self, skip_x: i32, skip_y: i32, k: usize) -> (c: (i32, i32))
        requires
            self@.grid_ok(),
            k < self@.vacant_count(cell((skip_x, skip_y))),
        ensures
            self@.is_nth_vacant(cell((skip_x, skip_y)), k as nat, cell(c)),
            self@.vacant(cell((skip_x, skip_y)), cell(c)),
    {
        let ghost skip = cell((skip_x, skip_y));
        let n = self.side();
        let total = n * n;
        let mut count: usize = 0;
        let mut i: usize = 0;
        while i < total
            invariant
                self@.grid_ok(),
                total == self@.capacity(),
                skip == cell((skip_x, skip_y)),
                i <= total,
                count <= k,
                count == self@.vacant_below(skip, i as nat),
                k < self@.vacant_count(skip),
            decreases total - i,
        {
            let c = self.cell_of(i);
            if self.is_vacant(skip_x, skip_y, c.0, c.1) {
                if count == k {
                    assert(cell(c) == self@.cell_at(i as nat as int));
                    return c;
                }
                count = count + 1;
            }
            i = i + 1;
        }
        (skip_x, skip_y)
    }

    /// Sets the direction of the next step. Nothing else changes.
    pub fn set_direction(&mut self, direction: Direction)
        ensures
            final(self)@ == old(self)@.heading(direction),
            old(self)@.wf() ==> final(self)@.wf(),
    {
        proof {
            if self@.wf() {
                self@.lemma_heading_keeps_wf(direction);
            }
        }
        self.direction = direction;
    }

    /// Moves the head one cell in the current direction and reports whether
    /// it advanced.
    ///
    /// Nothing happens where there is no snake or it fills the interior: the
    /// step is at its end, and the state stays as it is. Otherwise, on the
    /// target the snake keeps its tail and, if a cell is left vacant, a new
    /// target is drawn among the vacant cells; off the target the tail
    /// leaves. The head then advances unless its new cell is outside the
    /// interior or on what is left of the body: then the step collides, and
    /// the snake stays without the head's move.
    pub fn step(&mut self) -> (advanced: bool)
        requires
            old(self)@.wf(),
        ensures
            final(self)@.wf(),
            advanced == (old(self)@.outcome() is Advance),
            old(self)@.steps_to(final(self)@),
    {
        let ghost pre = self@;
        let n = self.side();
        let total = n * n;
        let len = self.body.len();
        if len == 0 || len == total {
            return false;
        }
        let head = self.body[0];
        proof {
            pre.lemma_side_bound();
            assert(pre.interior(pre.body[0]));
        }
        let next = self.direction.moved(head);
        assert(cell(next) == pre.next_head());
        if next.0 == self.apple.0 && next.1 == self.apple.1 {
            let free = self.vacant_cells(next.0, next.1);
            if free > 0 {
                let k = random_below(free);
                self.apple = self.nth_vacant_cell(next.0, next.1, k);
            }
        } else {
            self.body.pop_back();
            assert(self@.body =~= pre.body.drop_last());
        }
        assert(self@.body == pre.trimmed());
        assert(self@.body.take(self@.body.len() as int) =~= self@.body);
        if !self.is_interior(next.0, next.1) || self.covers(next.0, next.1, self.body.len()) {
            proof {
                pre.lemma_step_keeps_wf(self@);
            }
            return false;
        }
        self.body.push_front(next);
        proof {
            assert(self@.body =~= seq![pre.next_head()] + pre.trimmed());
            pre.lemma_step_keeps_wf(self@);
        }
        true
    }
}

} // verus!
