//! What holds of every game: the laws that tie the tour, the step and the
//! decision together.

use crate::direction::{shift, Direction};
use crate::model::SnakeView;
use crate::tour::{
    cell_count, in_grid, is_tour, lemma_tour_covers, lemma_walk_add, lemma_walk_injective, walk,
};
use vstd::prelude::*;

verus! {

/// A closed tour visits every cell of its grid exactly once before it is
/// back at the origin: each cell is met at one step below `n * n`, at no
/// other, and step `n * n` is the origin again.
pub proof fn law_tour_visits_each_cell_once(t: Seq<Direction>, n: int, c: (int, int))
    requires
        is_tour(t, n),
        in_grid(n, c),
    ensures
        exists|k: nat|
            {
                &&& k < cell_count(n)
                &&& walk(t, n, (0, 0), k) == c
                &&& forall|j: nat| j < cell_count(n) && j != k ==> walk(t, n, (0, 0), j) != c
            },
        walk(t, n, (0, 0), cell_count(n) as nat) == (0int, 0int),
{
    lemma_tour_covers(t, n, c);
    let k = choose|k: nat| k < cell_count(n) && walk(t, n, (0, 0), k) == c;
    assert forall|j: nat| j < cell_count(n) && j != k implies walk(t, n, (0, 0), j) != c by {
        if j < k {
            assert(walk(t, n, (0, 0), j) != walk(t, n, (0, 0), k));
        } else {
            assert(walk(t, n, (0, 0), k) != walk(t, n, (0, 0), j));
        }
    }
}

/// The alternatives of a direction are all directions but its opposite: a
/// cell may keep its direction or turn aside, never turn back.
pub proof fn law_alternatives_leave_out_the_opposite(from: Direction, to: Direction)
    ensures
        to != from.opposite() <==> exists|k: int| 0 <= k < 3 && from.turned(k) == to,
{
    if to != from.opposite() {
        if to == from {
            assert(from.turned(2) == to);
        } else if from.turned(0) == to {
        } else {
            assert(from.turned(1) == to);
        }
    }
}

impl SnakeView {
    /// The snake lies along the tour: each of its cells is followed on the
    /// tour by the cell before it in the body, up to the head.
    pub open spec fn along_tour(self) -> bool {
        forall|i: int|
            0 <= i < self.body.len() - 1 ==> self.walk_from(#[trigger] self.body[i + 1], 1)
                == self.body[i]
    }

    /// Walking `a` steps and then `b` more is walking `a + b`.
    pub proof fn lemma_walk_from_add(self, c: (int, int), a: nat, b: nat)
        ensures
            self.walk_from(c, a + b) == self.walk_from(self.walk_from(c, a), b),
    {
        lemma_walk_add(self.table, self.side(), self.to_grid(c), a, b);
    }

    /// Along the tour, cell `j` of the snake is `j` steps behind the head.
    pub proof fn lemma_steps_behind_head(self, j: int)
        requires
            self.along_tour(),
            0 <= j < self.body.len(),
        ensures
            self.walk_from(self.body[j], j as nat) == self.body[0],
        decreases j,
    {
        if j > 0 {
            self.lemma_steps_behind_head(j - 1);
            self.lemma_walk_from_add(self.body[j], 1, (j - 1) as nat);
            assert(self.walk_from(self.body[(j - 1) + 1], 1) == self.body[j - 1]);
        }
    }

    /// Following the tour is safe. Where a snake that lies along the tour
    /// takes the tour's own direction, the step does not collide, and after
    /// it the snake lies along the tour again. The step advances as long as
    /// the snake leaves an interior cell free.
    pub proof fn law_following_the_tour_is_safe(self, after: SnakeView)
        requires
            self.wf(),
            self.along_tour(),
            self.body.len() > 0 ==> self.direction == self.cycle_direction(self.head()),
            self.steps_to(after),
        ensures
            !(self.outcome() is Collide),
            1 <= self.body.len() <= self.capacity() - 1 ==> self.outcome() is Advance,
            after.wf(),
            after.along_tour(),
    {
        self.lemma_step_keeps_wf(after);
        self.lemma_room();
        if !self.terminal() {
            let head = self.head();
            let next = self.next_head();
            let kept = self.trimmed();
            assert(self.interior(self.body[0]));
            self.lemma_walk_step(head, 0);
            self.lemma_walk_step(head, 1);
            assert(next == self.walk_from(head, 1));
            if kept.contains(next) {
                let j = choose|j: int| 0 <= j < kept.len() && kept[j] == next;
                assert(self.body[j] == next);
                self.lemma_steps_behind_head(j);
                self.lemma_walk_from_add(next, j as nat, 1);
                self.lemma_walk_step(next, 0);
                self.lemma_walk_from_distinct(next, 0, (j + 1) as nat);
            }
            let grown = seq![next] + kept;
            assert(after.body == grown);
            assert forall|i: int| 0 <= i < grown.len() - 1 implies after.walk_from(
                #[trigger] grown[i + 1],
                1,
            ) == grown[i] by {
                assert(grown[i + 1] == self.body[i]);
                if i > 0 {
                    assert(grown[i] == self.body[i - 1]);
                    assert(self.walk_from(self.body[(i - 1) + 1], 1) == self.body[i - 1]);
                }
            }
        }
    }

    /// A shortcut is safe. Where the decision is a direction other than the
    /// tour's own, the step in that direction does not collide: it advances.
    pub proof fn law_shortcut_is_safe(self, d: Direction)
        requires
            self.wf(),
            self.body.len() > 0,
            self.decides(d),
            d != self.cycle_direction(self.head()),
        ensures
            !(self.heading(d).outcome() is Collide),
            self.heading(d).outcome() is Advance,
    {
        let turned = self.heading(d);
        let next = shift(self.head(), d);
        assert(self.shortcut(d));
        assert(turned.next_head() == next);
        assert(self.free(next));
        self.lemma_room();
        if turned.trimmed().contains(next) {
            let i = choose|i: int| 0 <= i < turned.trimmed().len() && turned.trimmed()[i] == next;
            assert(self.body[i] == next);
        }
    }

    /// Where a step advances onto the target, a cell is left vacant exactly
    /// where the grown snake does not fill the interior.
    pub proof fn lemma_growth_leaves_room(self)
        requires
            self.wf(),
            self.outcome() is Advance,
            self.eats(),
        ensures
            self.vacant_count(self.next_head()) > 0 <==> self.body.len() + 1 < self.capacity(),
    {
        let next = self.next_head();
        let grown = SnakeView { body: seq![next] + self.body, ..self };
        assert(grown.body[0] == next);
        assert forall|i: int| 0 < i < grown.body.len() implies #[trigger] grown.body[i]
            == self.body[i - 1] by {}
        assert forall|i: int| 0 <= i < grown.body.len() implies grown.interior(
            #[trigger] grown.body[i],
        ) by {
            if i > 0 {
                assert(grown.body[i] == self.body[i - 1]);
            }
        }
        assert forall|i: int, j: int|
            0 <= i < grown.body.len() && 0 <= j < grown.body.len() && i != j implies grown.body[i]
            != grown.body[j] by {
            if i > 0 {
                assert(grown.body[i] == self.body[i - 1]);
            }
            if j > 0 {
                assert(grown.body[j] == self.body[j - 1]);
            }
        }
        grown.lemma_room();
        self.lemma_vacant_count(next);
        if grown.has_room() {
            let c = choose|c: (int, int)| grown.free(c);
            if self.body.contains(c) {
                let i = choose|i: int| 0 <= i < self.body.len() && self.body[i] == c;
                assert(grown.body[i + 1] == c);
            }
            assert(self.vacant(next, c));
        }
        if exists|c: (int, int)| self.vacant(next, c) {
            let c = choose|c: (int, int)| self.vacant(next, c);
            if grown.body.contains(c) {
                let i = choose|i: int| 0 <= i < grown.body.len() && grown.body[i] == c;
                if i > 0 {
                    assert(self.body[i - 1] == c);
                }
            }
            assert(grown.free(c));
        }
    }

    /// The snake grows by eating and not otherwise. A step onto the target
    /// advances; after it the snake is longer by one and, unless it then
    /// fills the interior, the new target is an interior cell off the snake.
    /// After a step that advances elsewhere the snake is as long as before.
    /// After every step no cell occurs twice in the snake.
    pub proof fn law_growth(self, after: SnakeView)
        requires
            self.wf(),
            self.steps_to(after),
        ensures
            after.body.no_duplicates(),
            self.eats() && !self.terminal() ==> self.outcome() is Advance && after.body.len()
                == self.body.len() + 1,
            self.eats() && !self.terminal() && self.body.len() + 1 < self.capacity()
                ==> after.interior(after.apple) && !after.body.contains(after.apple),
            !self.eats() && self.outcome() is Advance ==> after.body.len() == self.body.len(),
    {
        self.lemma_step_keeps_wf(after);
        self.lemma_room();
        if self.eats() && !self.terminal() {
            self.lemma_growth_leaves_room();
            if self.body.len() + 1 < self.capacity() {
                let next = self.next_head();
                assert(self.respawns());
                assert(self.vacant(next, after.apple));
                if after.body.contains(after.apple) {
                    let i = choose|i: int|
                        0 <= i < after.body.len() && after.body[i] == after.apple;
                    if i > 0 {
                        assert(self.body[i - 1] == after.apple);
                    }
                }
            }
        }
    }
}

impl SnakeView {
    /// No two interior cells are equally far from the target along the tour.
    pub proof fn law_distances_differ(self, a: (int, int), b: (int, int))
        requires
            self.grid_ok(),
            self.interior(self.apple),
            self.interior(a),
            self.interior(b),
            self.cycle_distance(a) == self.cycle_distance(b),
        ensures
            a == b,
    {
        self.lemma_distance(a);
        self.lemma_distance(b);
        self.lemma_interior_is_grid(a);
        self.lemma_interior_is_grid(b);
        lemma_walk_injective(
            self.table,
            self.side(),
            self.to_grid(a),
            self.to_grid(b),
            self.cycle_distance(a),
        );
    }

    /// No two shortcuts are equally near: the order in which the decision
    /// weighs the moves never settles it.
    pub proof fn law_shortcuts_never_tie(self, d: Direction, e: Direction)
        requires
            self.wf(),
            self.shortcut(d),
            self.shortcut(e),
            self.distance_via(d) == self.distance_via(e),
        ensures
            d == e,
    {
        self.law_distances_differ(shift(self.head(), d), shift(self.head(), e));
    }

    /// The decision is one direction: two directions that both meet what is
    /// asked of the decision are the same.
    pub proof fn law_decision_is_determined(self, a: Direction, b: Direction)
        requires
            self.decides(a),
            self.decides(b),
        ensures
            a == b,
    {
        if self.shortcut(a) || self.shortcut(b) {
            assert(self.shortcut(a) && self.shortcut(b));
            assert(Self::order(a) == Self::order(b));
        }
    }

    /// Vacant cell number `k` is one cell.
    pub proof fn law_nth_vacant_is_determined(
        self,
        skip: (int, int),
        k: nat,
        a: (int, int),
        b: (int, int),
    )
        requires
            self.is_nth_vacant(skip, k, a),
            self.is_nth_vacant(skip, k, b),
        ensures
            a == b,
    {
        let i = choose|i: nat|
            i < self.capacity() && a == #[trigger] self.cell_at(i as int) && self.vacant(skip, a)
                && self.vacant_below(skip, i) == k;
        let j = choose|j: nat|
            j < self.capacity() && b == #[trigger] self.cell_at(j as int) && self.vacant(skip, b)
                && self.vacant_below(skip, j) == k;
        if i < j {
            self.lemma_vacant_below_grows(skip, i, j);
        } else if j < i {
            self.lemma_vacant_below_grows(skip, j, i);
        }
    }
}

} // verus!
