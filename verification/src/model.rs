//! The game as mathematics: the state of a snake on its grid, the distances
//! along the tour that the decision weighs, and what one step does.
//!
//! Cells are pairs of integers in the coordinates of the playing field. The
//! outer ring of the field is wall; the cells inside it form a square grid,
//! and the direction table is laid over that grid with its origin at the
//! interior cell of least coordinates.

use crate::direction::{shift, Direction};
use crate::tour::{
    cell_count, cell_index, in_grid, is_tour, lemma_tour_connects, lemma_tour_period,
    lemma_walk_distinct, lemma_walk_in_grid, next_cell, walk,
};
use vstd::arithmetic::div_mod::lemma_fundamental_div_mod_converse;
use vstd::prelude::*;

verus! {

/// How a step ends.
pub enum StepOutcome {
    /// The head moved to a free cell.
    Advance,
    /// The head would have left the interior or run into the body.
    Collide,
    /// There is no snake, or it fills the interior: nothing happens.
    Terminal,
}

/// The state of a game.
pub struct SnakeView {
    /// The cells of the snake, head first.
    pub body: Seq<(int, int)>,
    /// The direction of the next step.
    pub direction: Direction,
    /// The field: least x, least y, and one past the greatest x and y.
    pub borders: (int, int, int, int),
    /// The target.
    pub apple: (int, int),
    /// The direction table, row by row over the interior.
    pub table: Seq<Direction>,
}

impl SnakeView {
    /// The side of the interior.
    pub open spec fn side(self) -> int {
        self.borders.2 - self.borders.0 - 2
    }

    /// The number of interior cells.
    pub open spec fn capacity(self) -> int {
        cell_count(self.side())
    }

    /// `c` is an interior cell: inside the field and off its outer ring.
    pub open spec fn interior(self, c: (int, int)) -> bool {
        &&& self.borders.0 < c.0 < self.borders.2 - 1
        &&& self.borders.1 < c.1 < self.borders.3 - 1
    }

    /// The cell of the grid that lies under the cell `c` of the field.
    pub open spec fn to_grid(self, c: (int, int)) -> (int, int) {
        (c.0 - self.borders.0 - 1, c.1 - self.borders.1 - 1)
    }

    /// The cell of the field that lies over the cell `g` of the grid.
    pub open spec fn to_field(self, g: (int, int)) -> (int, int) {
        (g.0 + self.borders.0 + 1, g.1 + self.borders.1 + 1)
    }

    /// The interior is square and carries a closed tour, and its cells can
    /// be counted in an `i32`.
    pub open spec fn grid_ok(self) -> bool {
        &&& self.borders.3 - self.borders.1 == self.borders.2 - self.borders.0
        &&& is_tour(self.table, self.side())
        &&& self.capacity() <= i32::MAX
    }

    /// `c` is an interior cell that the snake does not cover.
    pub open spec fn free(self, c: (int, int)) -> bool {
        self.interior(c) && !self.body.contains(c)
    }

    /// The snake leaves an interior cell free.
    pub open spec fn has_room(self) -> bool {
        exists|c: (int, int)| self.free(c)
    }

    /// The state is well formed: the grid is, the snake lies in the interior
    /// and crosses itself nowhere, and the target is an interior cell that
    /// the snake does not cover unless it covers every cell.
    pub open spec fn wf(self) -> bool {
        &&& self.grid_ok()
        &&& forall|i: int| 0 <= i < self.body.len() ==> self.interior(#[trigger] self.body[i])
        &&& self.body.no_duplicates()
        &&& self.interior(self.apple)
        &&& self.has_room() ==> !self.body.contains(self.apple)
    }

    /// The direction that the table gives to cell `c`.
    pub open spec fn cycle_direction(self, c: (int, int)) -> Direction {
        self.table[cell_index(self.side(), self.to_grid(c))]
    }

    /// The cell reached from `c` by following the table for `k` steps.
    pub open spec fn walk_from(self, c: (int, int), k: nat) -> (int, int) {
        self.to_field(walk(self.table, self.side(), self.to_grid(c), k))
    }

    /// The walk from `c` meets the target after `d` steps and not before.
    pub open spec fn reaches_target_in(self, c: (int, int), d: nat) -> bool {
        &&& self.walk_from(c, d) == self.apple
        &&& forall|e: nat| e < d ==> #[trigger] self.walk_from(c, e) != self.apple
    }

    /// The number of steps along the tour from `c` to the target.
    pub open spec fn cycle_distance(self, c: (int, int)) -> nat {
        choose|d: nat| self.reaches_target_in(c, d)
    }

    /// How often the walk from `c` stands on the target in its steps 1 to `k`.
    pub open spec fn eaten_within(self, c: (int, int), k: nat) -> nat
        decreases k,
    {
        if k == 0 {
            0
        } else {
            self.eaten_within(c, (k - 1) as nat) + if self.walk_from(c, k) == self.apple {
                1nat
            } else {
                0nat
            }
        }
    }

    /// How many cells of the body, counted from the head, are still covered
    /// when the snake has followed the walk from `c` for `k` steps: each
    /// step frees the tail but one that lands on the target.
    pub open spec fn covered_after(self, c: (int, int), k: nat) -> int {
        let left = self.body.len() - k + self.eaten_within(c, k);
        if left < 0 {
            0
        } else {
            left
        }
    }

    /// Step `k` of the walk from `c` lands on a cell that the body still
    /// covers then.
    pub open spec fn blocked_at(self, c: (int, int), k: nat) -> bool {
        exists|i: int|
            0 <= i < self.covered_after(c, k) && i < self.body.len() && #[trigger] self.body[i]
                == self.walk_from(c, k)
    }

    /// The free run from `c` under the limit `cap` ends with step `k`: the
    /// step is blocked, or it is the last that the limit allows, or the walk
    /// is back at `c`.
    pub open spec fn run_ends_at(self, c: (int, int), cap: int, k: nat) -> bool {
        self.blocked_at(c, k) || k >= cap || self.walk_from(c, k) == c
    }

    /// `len` is the length of the free run from `c` under the limit `cap`:
    /// the first step, counted from 1, with which the run ends.
    pub open spec fn is_free_run(self, c: (int, int), cap: int, len: nat) -> bool {
        &&& len >= 1
        &&& self.run_ends_at(c, cap, len)
        &&& forall|k: nat| 1 <= k < len ==> !#[trigger] self.run_ends_at(c, cap, k)
    }

    /// The length of the free run from `c` under the limit `cap`.
    pub open spec fn free_run(self, c: (int, int), cap: int) -> nat {
        choose|len: nat| self.is_free_run(c, cap, len)
    }

    /// The same state with the direction set to `d`.
    pub open spec fn heading(self, d: Direction) -> SnakeView {
        SnakeView { direction: d, ..self }
    }

    /// The head of the snake.
    pub open spec fn head(self) -> (int, int) {
        self.body[0]
    }

    /// The cell that the next step moves the head to.
    pub open spec fn next_head(self) -> (int, int) {
        shift(self.head(), self.direction)
    }

    /// There is no snake, or it fills the interior.
    pub open spec fn terminal(self) -> bool {
        self.body.len() == 0 || self.body.len() == self.capacity()
    }

    /// The next step lands on the target.
    pub open spec fn eats(self) -> bool {
        self.next_head() == self.apple
    }

    /// The body that the new head is checked against: the tail leaves
    /// unless the step lands on the target.
    pub open spec fn trimmed(self) -> Seq<(int, int)> {
        if self.eats() {
            self.body
        } else {
            self.body.drop_last()
        }
    }

    /// The new head would be outside the interior or on the trimmed body.
    pub open spec fn collides(self) -> bool {
        !self.interior(self.next_head()) || self.trimmed().contains(self.next_head())
    }

    /// How the next step ends.
    pub open spec fn outcome(self) -> StepOutcome {
        if self.terminal() {
            StepOutcome::Terminal
        } else if self.collides() {
            StepOutcome::Collide
        } else {
            StepOutcome::Advance
        }
    }

    /// The body after the next step.
    pub open spec fn body_after(self) -> Seq<(int, int)> {
        if self.terminal() {
            self.body
        } else if self.collides() {
            self.trimmed()
        } else {
            seq![self.next_head()] + self.trimmed()
        }
    }

    /// `c` is a free cell other than `skip`.
    pub open spec fn vacant(self, skip: (int, int), c: (int, int)) -> bool {
        self.free(c) && c != skip
    }

    /// The cell of the field over the table's index `i`.
    pub open spec fn cell_at(self, i: int) -> (int, int) {
        self.to_field((i % self.side(), i / self.side()))
    }

    /// The number of vacant cells among those of the first `i` indices.
    pub open spec fn vacant_below(self, skip: (int, int), i: nat) -> nat
        decreases i,
    {
        if i == 0 {
            0
        } else {
            self.vacant_below(skip, (i - 1) as nat) + if self.vacant(skip, self.cell_at(i - 1)) {
                1nat
            } else {
                0nat
            }
        }
    }

    /// The number of vacant cells.
    pub open spec fn vacant_count(self, skip: (int, int)) -> nat {
        self.vacant_below(skip, self.capacity() as nat)
    }

    /// `c` is vacant cell number `k`, counted from 0 in the order of the
    /// table.
    pub open spec fn is_nth_vacant(self, skip: (int, int), k: nat, c: (int, int)) -> bool {
        exists|i: nat|
            i < self.capacity() && c == #[trigger] self.cell_at(i as int) && self.vacant(skip, c)
                && self.vacant_below(skip, i) == k
    }

    /// The next step draws a new target: it lands on the old one and leaves
    /// a cell vacant.
    pub open spec fn respawns(self) -> bool {
        !self.terminal() && self.eats() && self.vacant_count(self.next_head()) > 0
    }

    /// The order in which the decision weighs the four moves.
    pub open spec fn order(d: Direction) -> int {
        match d {
            Direction::Up => 0,
            Direction::Down => 1,
            Direction::Left => 2,
            Direction::Right => 3,
        }
    }

    /// The steps to the target by way of the neighbour in direction `d`.
    pub open spec fn distance_via(self, d: Direction) -> nat {
        self.cycle_distance(shift(self.head(), d)) + 1
    }

    /// The move `d` leads to a free interior cell from which the free run is
    /// no shorter than the snake.
    pub open spec fn safe_move(self, d: Direction) -> bool {
        let c = shift(self.head(), d);
        &&& self.interior(c)
        &&& !self.body.contains(c)
        &&& self.body.len() <= self.free_run(c, self.body.len() as int)
    }

    /// The move `d` is a shortcut: safe, and by way of it the target is
    /// nearer than along the tour.
    pub open spec fn shortcut(self, d: Direction) -> bool {
        self.safe_move(d) && self.distance_via(d) < self.cycle_distance(self.head())
    }

    /// `d` is the move that the decision takes: the shortcut of least
    /// distance, the first of them in the order of weighing where two are
    /// equal, and the tour's own direction where there is no shortcut.
    pub open spec fn decides(self, d: Direction) -> bool {
        &&& self.shortcut(d) || d == self.cycle_direction(self.head())
        &&& forall|e: Direction| #[trigger]
            self.shortcut(e) ==> {
                &&& self.shortcut(d)
                &&& self.distance_via(d) <= self.distance_via(e)
                &&& self.distance_via(d) == self.distance_via(e) ==> Self::order(d) <= Self::order(e)
            }
    }
}

impl SnakeView {
    /// The side of a grid whose cells can be counted in an `i32` is small.
    pub proof fn lemma_side_bound(self)
        requires
            self.side() >= 0,
            self.capacity() <= i32::MAX,
        ensures
            self.side() <= 46340,
            self.side() <= self.capacity(),
    {
        let n = self.side();
        assert(n <= 46340 && n <= n * n) by (nonlinear_arith)
            requires
                n >= 0,
                n * n <= 2147483647,
        ;
    }

    /// The interior cells of the field are the cells over the grid.
    pub proof fn lemma_interior_is_grid(self, c: (int, int))
        requires
            self.borders.3 - self.borders.1 == self.borders.2 - self.borders.0,
        ensures
            self.interior(c) <==> in_grid(self.side(), self.to_grid(c)),
            self.to_field(self.to_grid(c)) == c,
            self.to_grid(self.to_field(c)) == c,
    {
    }

    /// A walk over the field goes on by the direction of the cell it stands
    /// on, and from an interior cell it stays in the interior.
    pub proof fn lemma_walk_step(self, c: (int, int), k: nat)
        requires
            self.grid_ok(),
            self.interior(c),
        ensures
            self.interior(self.walk_from(c, k)),
            self.walk_from(c, k + 1) == shift(
                self.walk_from(c, k),
                self.cycle_direction(self.walk_from(c, k)),
            ),
    {
        let g = self.to_grid(c);
        self.lemma_interior_is_grid(c);
        lemma_walk_in_grid(self.table, self.side(), g, k);
        self.lemma_interior_is_grid(self.walk_from(c, k));
        assert(walk(self.table, self.side(), g, k + 1) == next_cell(
            self.table,
            self.side(),
            walk(self.table, self.side(), g, k),
        ));
    }

    /// From every interior cell the walk meets the target within
    /// `capacity - 1` steps.
    pub proof fn lemma_target_reachable(self, c: (int, int))
        requires
            self.grid_ok(),
            self.interior(c),
            self.interior(self.apple),
        ensures
            exists|d: nat| d < self.capacity() && self.walk_from(c, d) == self.apple,
    {
        self.lemma_interior_is_grid(c);
        self.lemma_interior_is_grid(self.apple);
        lemma_tour_connects(self.table, self.side(), self.to_grid(c), self.to_grid(self.apple));
        let d = choose|d: nat|
            d < cell_count(self.side()) && walk(self.table, self.side(), self.to_grid(c), d)
                == self.to_grid(self.apple);
        assert(d < self.capacity() && self.walk_from(c, d) == self.apple);
    }

    /// From every interior cell the walk is back after `capacity` steps.
    pub proof fn lemma_walk_returns(self, c: (int, int))
        requires
            self.grid_ok(),
            self.interior(c),
        ensures
            self.walk_from(c, self.capacity() as nat) == c,
    {
        self.lemma_interior_is_grid(c);
        lemma_tour_period(self.table, self.side(), self.to_grid(c));
    }

    /// From an interior cell the walk meets no cell twice within `capacity`
    /// steps.
    pub proof fn lemma_walk_from_distinct(self, c: (int, int), i: nat, j: nat)
        requires
            self.grid_ok(),
            self.interior(c),
            i < j < self.capacity(),
        ensures
            self.walk_from(c, i) != self.walk_from(c, j),
    {
        self.lemma_interior_is_grid(c);
        lemma_walk_distinct(self.table, self.side(), self.to_grid(c), i, j);
    }

    /// Where the walk from `c` stands on the target after `d` steps, it first
    /// meets it after some number of steps up to `d`.
    pub proof fn lemma_first_meeting(self, c: (int, int), d: nat)
        requires
            self.walk_from(c, d) == self.apple,
        ensures
            exists|e: nat| e <= d && self.reaches_target_in(c, e),
        decreases d,
    {
        if exists|e: nat| e < d && self.walk_from(c, e) == self.apple {
            let e = choose|e: nat| e < d && self.walk_from(c, e) == self.apple;
            self.lemma_first_meeting(c, e);
            let f = choose|f: nat| f <= e && self.reaches_target_in(c, f);
            assert(f <= d && self.reaches_target_in(c, f));
        } else {
            assert(self.reaches_target_in(c, d));
        }
    }

    /// From every interior cell the distance to the target is the number of
    /// steps after which the walk first meets it, and it is less than the
    /// number of interior cells.
    pub proof fn lemma_distance(self, c: (int, int))
        requires
            self.grid_ok(),
            self.interior(c),
            self.interior(self.apple),
        ensures
            self.reaches_target_in(c, self.cycle_distance(c)),
            self.cycle_distance(c) < self.capacity(),
    {
        self.lemma_target_reachable(c);
        let d = choose|d: nat| d < self.capacity() && self.walk_from(c, d) == self.apple;
        self.lemma_first_meeting(c, d);
        let e = choose|e: nat| e <= d && self.reaches_target_in(c, e);
        self.lemma_distance_unique(c, e);
    }

    /// The distance to the target is the one number of steps after which the
    /// walk first meets it.
    pub proof fn lemma_distance_unique(self, c: (int, int), d: nat)
        requires
            self.reaches_target_in(c, d),
        ensures
            self.cycle_distance(c) == d,
    {
        let e = self.cycle_distance(c);
        assert(self.reaches_target_in(c, e));
        if e < d {
            assert(self.walk_from(c, e) != self.apple);
        } else if d < e {
            assert(self.walk_from(c, d) != self.apple);
        }
    }

    /// The length of a free run is the one step with which the run first
    /// ends.
    pub proof fn lemma_free_run_unique(self, c: (int, int), cap: int, len: nat)
        requires
            self.is_free_run(c, cap, len),
        ensures
            self.free_run(c, cap) == len,
    {
        let other = self.free_run(c, cap);
        assert(self.is_free_run(c, cap, other));
        if other < len {
            assert(!self.run_ends_at(c, cap, other));
        } else if len < other {
            assert(!self.run_ends_at(c, cap, len));
        }
    }
}

impl SnakeView {
    /// The cells over the table's indices are the interior cells, each of
    /// them the cell over its own index alone.
    pub proof fn lemma_cell_at(self, i: int)
        requires
            self.grid_ok(),
            0 <= i < self.capacity(),
        ensures
            self.interior(self.cell_at(i)),
            cell_index(self.side(), self.to_grid(self.cell_at(i))) == i,
    {
        let n = self.side();
        let g = (i % n, i / n);
        assert(0 <= i / n < n && 0 <= i % n < n && (i / n) * n + i % n == i) by (nonlinear_arith)
            requires
                0 <= i < n * n,
                n >= 1,
        ;
        self.lemma_interior_is_grid(self.to_field(g));
    }

    /// Every interior cell lies over one of the table's indices.
    pub proof fn lemma_cell_has_index(self, c: (int, int))
        requires
            self.grid_ok(),
            self.interior(c),
        ensures
            0 <= cell_index(self.side(), self.to_grid(c)) < self.capacity(),
            self.cell_at(cell_index(self.side(), self.to_grid(c))) == c,
    {
        let n = self.side();
        let g = self.to_grid(c);
        self.lemma_interior_is_grid(c);
        crate::tour::lemma_index_in_table(n, g);
        lemma_fundamental_div_mod_converse(cell_index(n, g), n, g.1, g.0);
    }

    /// The count of vacant cells grows with the indices, by one over each
    /// vacant cell.
    pub proof fn lemma_vacant_below_grows(self, skip: (int, int), i: nat, j: nat)
        requires
            i <= j,
        ensures
            self.vacant_below(skip, i) <= self.vacant_below(skip, j),
            i < j && self.vacant(skip, self.cell_at(i as int)) ==> self.vacant_below(skip, i)
                < self.vacant_below(skip, j),
        decreases j - i,
    {
        if i < j {
            self.lemma_vacant_below_grows(skip, i, (j - 1) as nat);
        }
    }

    /// No cell is counted that is not vacant: where the count is above 0,
    /// there is a vacant cell.
    pub proof fn lemma_vacant_below_witness(self, skip: (int, int), i: nat)
        requires
            self.vacant_below(skip, i) > 0,
        ensures
            exists|j: nat| j < i && self.vacant(skip, #[trigger] self.cell_at(j as int)),
        decreases i,
    {
        if i > 0 {
            if self.vacant(skip, self.cell_at(i - 1)) {
                assert(self.vacant(skip, self.cell_at((i - 1) as nat as int)));
            } else {
                self.lemma_vacant_below_witness(skip, (i - 1) as nat);
            }
        }
    }

    /// There is a vacant cell exactly where the count of them is above 0.
    pub proof fn lemma_vacant_count(self, skip: (int, int))
        requires
            self.grid_ok(),
        ensures
            self.vacant_count(skip) > 0 <==> exists|c: (int, int)| self.vacant(skip, c),
    {
        let m = self.capacity() as nat;
        if self.vacant_count(skip) > 0 {
            self.lemma_vacant_below_witness(skip, m);
            let j = choose|j: nat| j < m && self.vacant(skip, #[trigger] self.cell_at(j as int));
            assert(self.vacant(skip, self.cell_at(j as int)));
        }
        if exists|c: (int, int)| self.vacant(skip, c) {
            let c = choose|c: (int, int)| self.vacant(skip, c);
            self.lemma_cell_has_index(c);
            let i = cell_index(self.side(), self.to_grid(c)) as nat;
            self.lemma_vacant_below_grows(skip, i, m);
        }
    }
}

impl SnakeView {
    /// A change of direction leaves a well-formed state well formed.
    pub proof fn lemma_heading_keeps_wf(self, d: Direction)
        requires
            self.wf(),
        ensures
            self.heading(d).wf(),
    {
        let turned = self.heading(d);
        if turned.has_room() {
            let c = choose|c: (int, int)| turned.free(c);
            assert(self.free(c));
        }
    }

    /// `after` is a state that a step may leave: the grid and the direction
    /// are those of `self`, the body is the one after the step, and the
    /// target is a vacant cell where a new one is drawn and the old one
    /// where none is.
    pub open spec fn steps_to(self, after: SnakeView) -> bool {
        &&& after.body == self.body_after()
        &&& after.direction == self.direction
        &&& after.borders == self.borders
        &&& after.table == self.table
        &&& self.respawns() ==> self.vacant(self.next_head(), after.apple)
        &&& !self.respawns() ==> after.apple == self.apple
    }

    /// A step leaves a well-formed state well formed.
    pub proof fn lemma_step_keeps_wf(self, after: SnakeView)
        requires
            self.wf(),
            self.steps_to(after),
        ensures
            after.wf(),
    {
        if !self.terminal() {
            let next = self.next_head();
            let kept = self.trimmed();
            self.lemma_room();
            assert(!self.body.contains(self.apple));
            assert forall|i: int| 0 <= i < kept.len() implies self.interior(#[trigger] kept[i])
                && kept[i] == self.body[i] by {}
            assert(kept.no_duplicates());
            assert forall|c: (int, int)| kept.contains(c) implies self.body.contains(c) by {
                let i = choose|i: int| 0 <= i < kept.len() && kept[i] == c;
                assert(self.body[i] == c);
            }
            if !self.collides() {
                let grown = seq![next] + kept;
                assert(after.body == grown);
                assert(grown[0] == next);
                assert forall|i: int| 0 < i < grown.len() implies #[trigger] grown[i] == kept[i
                    - 1] by {}
                assert forall|i: int| 0 <= i < grown.len() implies after.interior(
                    #[trigger] grown[i],
                ) by {
                    if i > 0 {
                        assert(grown[i] == kept[i - 1]);
                    }
                }
                assert forall|i: int, j: int|
                    0 <= i < grown.len() && 0 <= j < grown.len() && i != j implies grown[i]
                    != grown[j] by {
                    if i > 0 {
                        assert(grown[i] == kept[i - 1]);
                    }
                    if j > 0 {
                        assert(grown[j] == kept[j - 1]);
                    }
                }
                assert forall|c: (int, int)| grown.contains(c) implies c == next || kept.contains(
                    c,
                ) by {
                    let i = choose|i: int| 0 <= i < grown.len() && grown[i] == c;
                    if i > 0 {
                        assert(kept[i - 1] == c);
                    }
                }
                if self.eats() && !self.respawns() {
                    self.lemma_vacant_count(next);
                    if after.has_room() {
                        let c = choose|c: (int, int)| after.free(c);
                        if self.body.contains(c) {
                            let i = choose|i: int| 0 <= i < kept.len() && kept[i] == c;
                            assert(grown[i + 1] == c);
                        }
                        assert(self.vacant(next, c));
                    }
                }
            }
        }
    }
}

} // verus!
