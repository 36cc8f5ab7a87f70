//! The back-and-forth tour that every search starts from.
//!
//! Column 0 runs down to the origin. From there the tour sweeps the columns
//! to the right over all rows but the top one, odd columns upward and even
//! columns downward, and the top row leads back to column 0.

use crate::direction::Direction;
use crate::tour::{
    cell_count, cell_index, in_grid, is_tour, lemma_index_in_table, next_cell, walk,
};
use vstd::prelude::*;

verus! {

/// The direction that the back-and-forth tour of side `n` gives to cell `c`.
pub open spec fn base_direction(n: int, c: (int, int)) -> Direction {
    if c.1 == n - 1 && c.0 > 0 {
        Direction::Left
    } else if c.0 % 2 == 0 {
        if c.1 == 0 {
            Direction::Right
        } else {
            Direction::Down
        }
    } else {
        if c.1 == n - 2 && c.0 < n - 1 {
            Direction::Right
        } else {
            Direction::Up
        }
    }
}

/// `t` is the table of the back-and-forth tour of side `n`.
pub open spec fn is_base_table(t: Seq<Direction>, n: int) -> bool {
    &&& t.len() == cell_count(n)
    &&& forall|c: (int, int)| in_grid(n, c) ==> t[#[trigger] cell_index(n, c)] == base_direction(n, c)
}

/// The step of the back-and-forth tour at which it stands on cell `c`.
pub open spec fn base_rank(n: int, c: (int, int)) -> int {
    let w = n - 1;
    if c == (0int, 0int) {
        0
    } else if c.1 == n - 1 {
        w * w + 1 + (n - 1 - c.0)
    } else if c.0 == 0 {
        w * w + n + (n - 1 - c.1)
    } else if c.0 % 2 == 1 {
        1 + (c.0 - 1) * w + c.1
    } else {
        1 + (c.0 - 1) * w + (n - 2 - c.1)
    }
}

/// The rank of a cell is a step of the tour, and only the origin has rank 0.
proof fn lemma_base_rank_range(n: int, c: (int, int))
    requires
        n >= 2,
        in_grid(n, c),
    ensures
        0 <= base_rank(n, c) < cell_count(n),
        base_rank(n, c) == 0 ==> c == (0int, 0int),
{
    let w = n - 1;
    assert(n * n == w * w + 2 * w + 1) by (nonlinear_arith)
        requires
            w == n - 1,
    ;
    assert(w * w >= 1) by (nonlinear_arith)
        requires
            w >= 1,
    ;
    if c.0 >= 1 {
        assert(0 <= (c.0 - 1) * w && (c.0 - 1) * w + w <= w * w) by (nonlinear_arith)
            requires
                1 <= c.0 <= w,
                w >= 1,
        ;
    }
}

/// The back-and-forth table sends each cell of the grid to the cell of the
/// next rank, and the cell of the last rank to the origin.
proof fn lemma_base_rank_step(t: Seq<Direction>, n: int, c: (int, int))
    requires
        n >= 2,
        n % 2 == 0,
        is_base_table(t, n),
        in_grid(n, c),
    ensures
        in_grid(n, next_cell(t, n, c)),
        base_rank(n, next_cell(t, n, c)) == if base_rank(n, c) + 1 == cell_count(n) {
            0
        } else {
            base_rank(n, c) + 1
        },
{
    let w = n - 1;
    let d = next_cell(t, n, c);
    lemma_index_in_table(n, c);
    assert(t[cell_index(n, c)] == base_direction(n, c));
    assert(n * n == w * w + 2 * w + 1) by (nonlinear_arith)
        requires
            w == n - 1,
    ;
    assert(c.0 * w == (c.0 - 1) * w + w) by (nonlinear_arith);
    assert((c.0 - 2) * w == (c.0 - 1) * w - w) by (nonlinear_arith);
    assert((w - 1) * w + w == w * w) by (nonlinear_arith);
    lemma_base_rank_range(n, c);
    if c.1 == n - 1 && c.0 > 0 {
        assert(d == (c.0 - 1, c.1));
        assert(base_rank(n, d) == base_rank(n, c) + 1);
    } else if c.0 % 2 == 0 {
        if c.1 == 0 {
            assert(d == (c.0 + 1, 0int));
            assert(c.0 + 1 <= n - 1);
            assert((d.0 - 1) * w == c.0 * w);
            if c.0 == 0 {
                assert((d.0 - 1) * w == 0) by (nonlinear_arith)
                    requires
                        d.0 == 1,
                ;
            }
            assert(base_rank(n, d) == base_rank(n, c) + 1);
        } else {
            assert(d == (c.0, c.1 - 1));
            if d == (0int, 0int) {
                assert(base_rank(n, c) + 1 == cell_count(n));
            } else {
                assert(base_rank(n, d) == base_rank(n, c) + 1);
            }
        }
    } else {
        if c.1 == n - 2 && c.0 < n - 1 {
            assert(d == (c.0 + 1, c.1));
            assert((d.0 - 1) * w == c.0 * w);
            assert(base_rank(n, d) == base_rank(n, c) + 1);
        } else {
            assert(d == (c.0, c.1 + 1));
            if c.1 == n - 2 {
                assert(c.0 == n - 1);
                assert((c.0 - 1) * w == (w - 1) * w);
            }
            assert(base_rank(n, d) == base_rank(n, c) + 1);
        }
    }
    lemma_base_rank_range(n, d);
}

/// Step `k` of the walk over the back-and-forth table stands on the cell of
/// rank `k`.
proof fn lemma_ranked_walk(t: Seq<Direction>, n: int, k: nat)
    requires
        n >= 2,
        n % 2 == 0,
        is_base_table(t, n),
        k < cell_count(n),
    ensures
        in_grid(n, walk(t, n, (0, 0), k)),
        base_rank(n, walk(t, n, (0, 0), k)) == k,
    decreases k,
{
    if k > 0 {
        lemma_ranked_walk(t, n, (k - 1) as nat);
        lemma_base_rank_step(t, n, walk(t, n, (0, 0), (k - 1) as nat));
    }
}

/// The back-and-forth table of an even side is a closed tour.
pub proof fn lemma_base_is_tour(t: Seq<Direction>, n: int)
    requires
        n >= 2,
        n % 2 == 0,
        is_base_table(t, n),
    ensures
        is_tour(t, n),
{
    let m = cell_count(n);
    assert(m >= 4) by (nonlinear_arith)
        requires
            n >= 2,
            m == n * n,
    ;
    assert forall|k: nat| k < m implies in_grid(n, #[trigger] walk(t, n, (0, 0), k)) by {
        lemma_ranked_walk(t, n, k);
    }
    assert forall|i: nat, j: nat| i < j < m implies #[trigger] walk(t, n, (0, 0), i)
        != #[trigger] walk(t, n, (0, 0), j) by {
        lemma_ranked_walk(t, n, i);
        lemma_ranked_walk(t, n, j);
    }
    let last = walk(t, n, (0, 0), (m - 1) as nat);
    lemma_ranked_walk(t, n, (m - 1) as nat);
    lemma_base_rank_step(t, n, last);
    lemma_base_rank_range(n, next_cell(t, n, last));
}

/// Builds the table of the back-and-forth tour of side `n`.
pub fn base_path(n: usize) -> (path: Vec<Direction>)
    requires
        n * n <= usize::MAX,
    ensures
        is_base_table(path@, n as int),
        n >= 2 && n % 2 == 0 ==> is_tour(path@, n as int),
{
    let mut path: Vec<Direction> = Vec::new();
    let mut row: usize = 0;
    while row < n
        invariant
            row <= n,
            n * n <= usize::MAX,
            path.len() == row * n,
            forall|c: (int, int)|
                in_grid(n as int, c) && c.1 < row ==> path[#[trigger] cell_index(n as int, c)]
                    == base_direction(n as int, c),
        decreases n - row,
    {
        let mut col: usize = 0;
        while col < n
            invariant
                row < n,
                col <= n,
                n * n <= usize::MAX,
                path.len() == row * n + col,
                forall|c: (int, int)|
                    in_grid(n as int, c) && (c.1 < row || (c.1 == row && c.0 < col)) ==> path[#[trigger] cell_index(
                        n as int,
                        c,
                    )] == base_direction(n as int, c),
            decreases n - col,
        {
            let d = if row == n - 1 && col > 0 {
                Direction::Left
            } else if col % 2 == 0 {
                if row == 0 {
                    Direction::Right
                } else {
                    Direction::Down
                }
            } else {
                if row + 2 == n && col < n - 1 {
                    Direction::Right
                } else {
                    Direction::Up
                }
            };
            let ghost before = path@;
            path.push(d);
            proof {
                assert forall|c: (int, int)|
                    in_grid(n as int, c) && (c.1 < row || (c.1 == row && c.0 < col + 1)) implies path[#[trigger] cell_index(
                    n as int,
                    c,
                )] == base_direction(n as int, c) by {
                    if c.1 == row && c.0 == col {
                    } else {
                        lemma_index_in_table(n as int, c);
                        lemma_row_major(n as int, c, (col as int, row as int));
                        assert(path[cell_index(n as int, c)] == before[cell_index(n as int, c)]);
                    }
                }
            }
            col = col + 1;
        }
        proof {
            assert(row * n + n == (row + 1) * n) by (nonlinear_arith);
        }
        row = row + 1;
    }
    proof {
        if n >= 2 && n % 2 == 0 {
            lemma_base_is_tour(path@, n as int);
        }
    }
    path
}

/// A cell that comes before another, row by row, has the smaller index.
proof fn lemma_row_major(n: int, a: (int, int), b: (int, int))
    requires
        in_grid(n, a),
        in_grid(n, b),
        a.1 < b.1 || (a.1 == b.1 && a.0 < b.0),
    ensures
        cell_index(n, a) < cell_index(n, b),
{
    if a.1 < b.1 {
        assert(a.1 * n + n <= b.1 * n) by (nonlinear_arith)
            requires
                a.1 < b.1,
                n > 0,
        ;
    }
}

} // verus!
