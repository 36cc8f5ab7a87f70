//! Distances along the tour: to the target, and to the snake's own body.

use crate::direction::Direction;
use crate::snake::{cell, Snake};
use crate::tour::lemma_index_in_table;
use vstd::prelude::*;

verus! {

impl Snake {
    /// The direction that the tour gives to the interior cell `(x, y)`.
    pub fn path_direction(&self, x: i32, y: i32) -> (d: Direction)
        requires
            self@.grid_ok(),
            self@.interior(cell((x, y))),
        ensures
            d == self@.cycle_direction(cell((x, y))),
    {
        let n = self.side();
        proof {
            self@.lemma_side_bound();
            self@.lemma_interior_is_grid(cell((x, y)));
            lemma_index_in_table(n as int, self@.to_grid(cell((x, y))));
        }
        let col = (x - self.borders.0 - 1) as usize;
        let row = (y - self.borders.1 - 1) as usize;
        self.direction_path[row * n + col]
    }

    /// The cell that the tour leads to from the interior cell `(x, y)`.
    pub(crate) fn follow(&self, x: i32, y: i32) -> (next: (i32, i32))
        requires
            self@.grid_ok(),
            self@.interior(cell((x, y))),
        ensures
            cell(next) == self@.walk_from(cell((x, y)), 1),
            self@.interior(cell(next)),
    {
        proof {
            self@.lemma_side_bound();
            self@.lemma_walk_step(cell((x, y)), 0);
            self@.lemma_walk_step(cell((x, y)), 1);
            self@.lemma_interior_is_grid(cell((x, y)));
        }
        self.path_direction(x, y).moved((x, y))
    }

    /// The number of steps along the tour from the interior cell `(x, y)` to
    /// the target: 0 on the target itself, and less than the number of
    /// interior cells everywhere.
    pub fn path_len(&self, x: i32, y: i32) -> (len: u32)
        requires
            self@.grid_ok(),
            self@.interior(self@.apple),
            self@.interior(cell((x, y))),
        ensures
            self@.reaches_target_in(cell((x, y)), len as nat),
            len == self@.cycle_distance(cell((x, y))),
            len < self@.capacity(),
    {
        let ghost start = cell((x, y));
        let n = self.side();
        let total = n * n;
        let (mut x, mut y) = (x, y);
        let mut len: u32 = 0;
        proof {
            self@.lemma_interior_is_grid(start);
            self@.lemma_target_reachable(start);
        }
        while x != self.apple.0 || y != self.apple.1
            invariant
                self@.grid_ok(),
                total == self@.capacity(),
                self@.interior(start),
                self@.interior(cell((x, y))),
                cell((x, y)) == self@.walk_from(start, len as nat),
                forall|e: nat| e < len ==> #[trigger] self@.walk_from(start, e) != self@.apple,
                exists|d: nat| d < self@.capacity() && self@.walk_from(start, d) == self@.apple,
                len < total,
            decreases total - len,
        {
            proof {
                self@.lemma_walk_step(start, len as nat);
                self@.lemma_walk_step(start, (len + 1) as nat);
                self@.lemma_walk_step(cell((x, y)), 0);
                self@.lemma_walk_step(cell((x, y)), 1);
                self@.lemma_interior_is_grid(cell((x, y)));
                let d = choose|d: nat|
                    d < self@.capacity() && self@.walk_from(start, d) == self@.apple;
                assert(d > len) by {
                    if d < len {
                        assert(self@.walk_from(start, d) != self@.apple);
                    }
                }
            }
            let next = self.follow(x, y);
            x = next.0;
            y = next.1;
            len = len + 1;
        }
        proof {
            self@.lemma_distance_unique(start, len as nat);
        }
        len
    }

    /// The length of the free run from the interior cell `(base_x, base_y)`:
    /// the number of steps along the tour up to the first that lands on a
    /// cell which the body still covers then, that reaches `max_len`, or
    /// that is back at the start. While the snake follows the run its tail
    /// frees one cell with each step but those that land on the target.
    pub fn free_path_len(&self, base_x: i32, base_y: i32, max_len: u32) -> (len: u32)
        requires
            self@.grid_ok(),
            self@.interior(cell((base_x, base_y))),
        ensures
            self@.is_free_run(cell((base_x, base_y)), max_len as int, len as nat),
            len == self@.free_run(cell((base_x, base_y)), max_len as int),
            1 <= len <= self@.capacity(),
    {
        let ghost base = cell((base_x, base_y));
        let ghost cap = max_len as int;
        let n = self.side();
        let total = n * n;
        let snake_len = self.body.len();
        let (mut x, mut y) = (base_x, base_y);
        let mut len: usize = 0;
        let mut apples: usize = 0;
        proof {
            self@.lemma_side_bound();
        }
        loop
            invariant
                self@.grid_ok(),
                total == self@.capacity(),
                snake_len == self@.body.len(),
                base == cell((base_x, base_y)),
                cap == max_len as int,
                self@.interior(base),
                self@.interior(cell((x, y))),
                cell((x, y)) == self@.walk_from(base, len as nat),
                apples == self@.eaten_within(base, len as nat),
                apples <= len,
                forall|k: nat| 1 <= k <= len ==> !#[trigger] self@.run_ends_at(base, cap, k),
                len < total,
            decreases total - len,
        {
            proof {
                self@.lemma_walk_step(base, len as nat);
                self@.lemma_walk_step(base, (len + 1) as nat);
                self@.lemma_walk_step(cell((x, y)), 0);
                self@.lemma_walk_step(cell((x, y)), 1);
            }
            let next = self.follow(x, y);
            x = next.0;
            y = next.1;
            if x == self.apple.0 && y == self.apple.1 {
                apples = apples + 1;
            }
            len = len + 1;
            let gone = len - apples;
            let keep = if gone >= snake_len {
                0
            } else {
                snake_len - gone
            };
            assert(keep == self@.covered_after(base, len as nat));
            let blocked = self.covers(x, y, keep);
            proof {
                let covered = self@.body.take(keep as int);
                if blocked {
                    let i = choose|i: int| 0 <= i < covered.len() && covered[i] == cell((x, y));
                    assert(self@.body[i] == self@.walk_from(base, len as nat));
                }
                if self@.blocked_at(base, len as nat) {
                    let i = choose|i: int|
                        0 <= i < self@.covered_after(base, len as nat) && i < self@.body.len()
                            && #[trigger] self@.body[i] == self@.walk_from(base, len as nat);
                    assert(covered[i] == cell((x, y)));
                }
                assert(blocked == self@.blocked_at(base, len as nat));
            }
            if blocked || len >= max_len as usize || (x == base_x && y == base_y) {
                proof {
                    self@.lemma_free_run_unique(base, cap, len as nat);
                }
                return len as u32;
            }
            proof {
                self@.lemma_walk_returns(base);
            }
        }
    }
}

} // verus!
