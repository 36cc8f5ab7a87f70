//! Counting cells: a snake that crosses itself nowhere is no longer than the
//! interior has cells, and one that covers the interior is no shorter.

use crate::model::SnakeView;
use crate::tour::{cell_index, lemma_index_injective};
use vstd::prelude::*;
use vstd::relations::injective_on;
use vstd::set_lib::{lemma_int_range, lemma_len_subset, lemma_map_size, set_int_range};

verus! {

/// A function that sends the numbers below `a` to numbers below `b`, no two
/// of them to the same, shows that `a` is at most `b`.
pub proof fn lemma_injection_bound(f: spec_fn(int) -> int, a: int, b: int)
    requires
        0 <= a,
        0 <= b,
        forall|i: int| 0 <= i < a ==> 0 <= #[trigger] f(i) < b,
        forall|i: int, j: int| 0 <= i < a && 0 <= j < a && #[trigger] f(i) == #[trigger] f(j) ==> i == j,
    ensures
        a <= b,
{
    let from = set_int_range(0, a);
    let to = set_int_range(0, b);
    let image = from.map(f);
    lemma_int_range(0, a);
    lemma_int_range(0, b);
    assert(injective_on(f, from));
    lemma_map_size(from, image, f);
    assert(image.subset_of(to)) by {
        assert forall|x: int| image.contains(x) implies to.contains(x) by {
            let i = choose|i: int| from.contains(i) && x == f(i);
            assert(0 <= f(i) < b);
        }
    }
    lemma_len_subset(image, to);
}

impl SnakeView {
    /// Interior cells that differ from one another are at most as many as
    /// the interior has cells.
    pub proof fn lemma_distinct_cells_fit(self, cells: Seq<(int, int)>)
        requires
            self.grid_ok(),
            forall|i: int| 0 <= i < cells.len() ==> self.interior(#[trigger] cells[i]),
            cells.no_duplicates(),
        ensures
            cells.len() <= self.capacity(),
    {
        let n = self.side();
        let place = |p: int| cell_index(n, self.to_grid(cells[p]));
        assert forall|p: int| 0 <= p < cells.len() implies 0 <= #[trigger] place(p)
            < self.capacity() by {
            self.lemma_cell_has_index(cells[p]);
        }
        assert forall|p: int, q: int|
            0 <= p < cells.len() && 0 <= q < cells.len() && #[trigger] place(p) == #[trigger] place(
                q,
            ) implies p == q by {
            self.lemma_interior_is_grid(cells[p]);
            self.lemma_interior_is_grid(cells[q]);
            lemma_index_injective(n, self.to_grid(cells[p]), self.to_grid(cells[q]));
            assert(cells[p] == cells[q]);
        }
        self.lemma_side_bound();
        lemma_injection_bound(place, cells.len() as int, self.capacity());
    }

    /// Cells among which every interior cell occurs are at least as many as
    /// the interior has cells.
    pub proof fn lemma_covering_cells_fill(self, cells: Seq<(int, int)>)
        requires
            self.grid_ok(),
            forall|c: (int, int)| self.interior(c) ==> cells.contains(c),
        ensures
            cells.len() >= self.capacity(),
    {
        let found = |i: int| cells.index_of(self.cell_at(i));
        assert forall|i: int| 0 <= i < self.capacity() implies 0 <= #[trigger] found(i)
            < cells.len() && cells[found(i)] == self.cell_at(i) by {
            self.lemma_cell_at(i);
            assert(cells.contains(self.cell_at(i)));
        }
        assert forall|i: int, j: int|
            0 <= i < self.capacity() && 0 <= j < self.capacity() && #[trigger] found(i)
                == #[trigger] found(j) implies i == j by {
            self.lemma_cell_at(i);
            self.lemma_cell_at(j);
            assert(cells[found(i)] == self.cell_at(i));
            assert(cells[found(j)] == self.cell_at(j));
        }
        self.lemma_side_bound();
        lemma_injection_bound(found, self.capacity(), cells.len() as int);
    }

    /// A well-placed snake is no longer than the interior has cells; it
    /// leaves a cell free exactly where it is shorter.
    pub proof fn lemma_room(self)
        requires
            self.grid_ok(),
            forall|i: int| 0 <= i < self.body.len() ==> self.interior(#[trigger] self.body[i]),
            self.body.no_duplicates(),
        ensures
            self.body.len() <= self.capacity(),
            self.has_room() <==> self.body.len() < self.capacity(),
    {
        self.lemma_distinct_cells_fit(self.body);
        if !self.has_room() {
            assert forall|c: (int, int)| self.interior(c) implies self.body.contains(c) by {
                assert(!self.free(c));
            }
            self.lemma_covering_cells_fill(self.body);
        }
        if self.has_room() {
            let c = choose|c: (int, int)| self.free(c);
            let more = self.body.push(c);
            assert forall|i: int| 0 <= i < more.len() implies self.interior(#[trigger] more[i]) by {
                if i < self.body.len() {
                    assert(more[i] == self.body[i]);
                }
            }
            assert forall|i: int, j: int| 0 <= i < more.len() && 0 <= j < more.len() && i
                != j implies more[i] != more[j] by {
                if i < self.body.len() {
                    assert(more[i] == self.body[i]);
                }
                if j < self.body.len() {
                    assert(more[j] == self.body[j]);
                }
            }
            self.lemma_distinct_cells_fit(more);
        }
    }
}

} // verus!
