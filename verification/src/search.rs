//! The randomized search that loosens the back-and-forth tour: it proposes
//! changes to four cells at a time and keeps a proposal only if the changed
//! table is still a closed tour.

use crate::base_path::{base_path, is_base_table};
use crate::direction::Direction;
use crate::random::random_below;
use crate::snake::Snake;
use crate::tour::{cell_count, closes_tour, is_tour};
use rayon::iter::{ParallelBridge, ParallelIterator};
use vstd::prelude::*;

verus! {

/// New directions for four cells of a table, given by their indices. Where
/// two of the indices agree, the later change stands.
#[derive(Clone, Copy, Debug)]
pub struct Perturbation {
    pub index1: usize,
    pub index2: usize,
    pub index3: usize,
    pub index4: usize,
    pub dir1: Direction,
    pub dir2: Direction,
    pub dir3: Direction,
    pub dir4: Direction,
}

/// The step from an index to the index of neighbour `k` of eight: the cell
/// before, the three of the row below, the cell after, the three of the row
/// above.
pub open spec fn offset(n: int, k: int) -> int {
    if k == 0 {
        -1
    } else if k == 1 {
        -n + 1
    } else if k == 2 {
        -n
    } else if k == 3 {
        -n - 1
    } else if k == 4 {
        1
    } else if k == 5 {
        n - 1
    } else if k == 6 {
        n + 1
    } else {
        n
    }
}

/// The index of neighbour `k` of the cell at `index`, held inside the table.
pub open spec fn neighbour(index: int, k: int, n: int) -> int {
    let moved = index + offset(n, k);
    if moved < 0 {
        0
    } else if moved > cell_count(n) - 1 {
        cell_count(n) - 1
    } else {
        moved
    }
}

impl Perturbation {
    /// All four indices lie in a table of `len` cells.
    pub open spec fn fits(self, len: int) -> bool {
        &&& self.index1 < len
        &&& self.index2 < len
        &&& self.index3 < len
        &&& self.index4 < len
    }

    /// The table after the four changes, made in order.
    pub open spec fn apply(self, t: Seq<Direction>) -> Seq<Direction> {
        t.update(self.index1 as int, self.dir1).update(self.index2 as int, self.dir2).update(
            self.index3 as int,
            self.dir3,
        ).update(self.index4 as int, self.dir4)
    }

    /// The perturbation is one that `propose` may draw for table `t`: the
    /// second cell of each pair is a neighbour of the first, and no cell is
    /// turned to the opposite of the direction it has in `t`.
    pub open spec fn is_proposal(self, t: Seq<Direction>, n: int) -> bool {
        &&& self.fits(t.len() as int)
        &&& exists|k: int| 0 <= k < 8 && self.index2 == neighbour(self.index1 as int, k, n)
        &&& exists|k: int| 0 <= k < 8 && self.index4 == neighbour(self.index3 as int, k, n)
        &&& self.dir1 != t[self.index1 as int].opposite()
        &&& self.dir2 != t[self.index2 as int].opposite()
        &&& self.dir3 != t[self.index3 as int].opposite()
        &&& self.dir4 != t[self.index4 as int].opposite()
    }
}

/// The index of neighbour `k` of the cell at `index` in a table of side `n`.
/// A neighbour that would fall before the table is the first cell, one that
/// would fall behind it the last.
pub fn neighbour_index(index: usize, k: usize, n: usize) -> (moved: usize)
    requires
        k < 8,
        n >= 1,
        index < n * n,
        n * n <= i32::MAX,
    ensures
        moved == neighbour(index as int, k as int, n as int),
        moved < n * n,
{
    assert(n <= n * n) by (nonlinear_arith)
        requires
            n >= 1,
    ;
    let last = n * n - 1;
    if k < 4 {
        let back = if k == 0 {
            1
        } else if k == 1 {
            n - 1
        } else if k == 2 {
            n
        } else {
            n + 1
        };
        if index >= back {
            index - back
        } else {
            0
        }
    } else {
        let forth = if k == 4 {
            1
        } else if k == 5 {
            n - 1
        } else if k == 6 {
            n + 1
        } else {
            n
        };
        if index + forth > last {
            last
        } else {
            index + forth
        }
    }
}

/// Turns `dir` to one of its three alternatives, drawn at random: never to
/// the opposite of `dir`.
pub fn random_dir(dir: Direction) -> (turned: Direction)
    ensures
        turned != dir.opposite(),
{
    let k = random_below(3);
    dir.alternative(k)
}

/// Draws a perturbation of `path`: twice a cell and one of its neighbours,
/// and for each of the four a turn of the direction it has now.
pub fn propose(path: &Vec<Direction>, n: usize) -> (p: Perturbation)
    requires
        n >= 1,
        path.len() == n * n,
        n * n <= i32::MAX,
    ensures
        p.is_proposal(path@, n as int),
{
    assert(n * n >= 1) by (nonlinear_arith)
        requires
            n >= 1,
    ;
    let index1 = random_below(path.len());
    let index2 = neighbour_index(index1, random_below(8), n);
    let index3 = random_below(path.len());
    let index4 = neighbour_index(index3, random_below(8), n);
    Perturbation {
        index1,
        index2,
        index3,
        index4,
        dir1: random_dir(path[index1]),
        dir2: random_dir(path[index2]),
        dir3: random_dir(path[index3]),
        dir4: random_dir(path[index4]),
    }
}

/// Makes the four changes of `p` in `path`.
pub fn perturb(path: &mut Vec<Direction>, p: &Perturbation)
    requires
        p.fits(old(path).len() as int),
    ensures
        final(path)@ == p.apply(old(path)@),
{
    path[p.index1] = p.dir1;
    path[p.index2] = p.dir2;
    path[p.index3] = p.dir3;
    path[p.index4] = p.dir4;
}

/// Replays `path` with the changes of `p` made in a copy, and reports
/// whether the changed table is a closed tour.
pub fn keeps_tour(path: &Vec<Direction>, n: usize, p: &Perturbation) -> (ok: bool)
    requires
        p.fits(path.len() as int),
    ensures
        ok == is_tour(p.apply(path@), n as int),
{
    let mut changed: Vec<Direction> = Vec::new();
    let mut i: usize = 0;
    while i < path.len()
        invariant
            i <= path.len(),
            changed@ == path@.take(i as int),
        decreases path.len() - i,
    {
        changed.push(path[i]);
        i = i + 1;
    }
    assert(changed@ == path@);
    perturb(&mut changed, p);
    closes_tour(&changed, n)
}

/// Searches proposals for `path` on all threads of the pool until one keeps
/// the tour closed: `(0..).par_bridge().map(..).find_any(..)` of `rayon`,
/// with `propose` as the map and `keeps_tour` as the predicate.
///
/// Not proved. `find_any` returns an item for which the predicate held, and
/// each item is a result of `propose`, so it fits the table and the changed
/// table is a closed tour. The search runs until a proposal passes. On a
/// table that is a closed tour the proposal that turns every cell to the
/// direction it has is drawn with a chance above zero and passes, so
/// `requires` asks for such a table. Which proposal comes back is left open.
#[verifier::external_body]
fn find_perturbation(path: &Vec<Direction>, n: usize) -> (found: Perturbation)
    requires
        n >= 1,
        path.len() == n * n,
        n * n <= i32::MAX,
        is_tour(path@, n as int),
    ensures
        found.is_proposal(path@, n as int),
        is_tour(found.apply(path@), n as int),
{
    (0u64..).par_bridge().map(|_| propose(path, n)).find_any(|p| keeps_tour(path, n, p)).unwrap()
}

/// `t` is the back-and-forth table of side `n` after `rounds` accepted
/// perturbations: each of them a proposal for the table before it that left
/// a closed tour.
pub open spec fn is_loosened(t: Seq<Direction>, n: int, rounds: nat) -> bool
    decreases rounds,
{
    if rounds == 0 {
        is_base_table(t, n)
    } else {
        exists|before: Seq<Direction>, p: Perturbation|
            {
                &&& is_loosened(before, n, (rounds - 1) as nat)
                &&& p.is_proposal(before, n)
                &&& is_tour(#[trigger] p.apply(before), n)
                &&& t == p.apply(before)
            }
    }
}

impl Snake {
    /// Builds a closed tour of the grid of side `size`: the back-and-forth
    /// tour, loosened by as many accepted perturbations as the grid has
    /// cells. Each of them is found by a search over random proposals and
    /// leaves the table a closed tour.
    ///
    /// A grid of odd side has no closed tour.
    pub fn init_path_direction(size: u32) -> (path: Vec<Direction>)
        requires
            size % 2 == 0,
            size * size <= i32::MAX,
        ensures
            path@.len() == cell_count(size as int),
            size >= 2 ==> is_tour(path@, size as int),
            is_loosened(path@, size as int, cell_count(size as int) as nat),
    {
        let n = size as usize;
        let mut path = base_path(n);
        if n == 0 {
            assert(cell_count(size as int) == 0) by (nonlinear_arith)
                requires
                    size == 0,
                    cell_count(size as int) == size * size,
            ;
            return path;
        }
        let rounds = n * n;
        let mut round: usize = 0;
        while round < rounds
            invariant
                n >= 2,
                rounds == n * n,
                rounds <= i32::MAX,
                round <= rounds,
                path.len() == rounds,
                is_tour(path@, n as int),
                is_loosened(path@, n as int, round as nat),
            decreases rounds - round,
        {
            let ghost before = path@;
            let found = find_perturbation(&path, n);
            perturb(&mut path, &found);
            round = round + 1;
            assert(is_loosened(before, n as int, (round - 1) as nat) && found.is_proposal(
                before,
                n as int,
            ) && is_tour(found.apply(before), n as int) && path@ == found.apply(before));
        }
        path
    }
}

} // verus!
