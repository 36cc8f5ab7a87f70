//! Direction tables over a square grid, and what it means for one to be a
//! closed tour: followed from the origin it visits every cell once and returns.
//!
//! A table of side `n` holds one direction per cell, row by row: the cell in
//! column `c.0` and row `c.1` stands at index `c.1 * n + c.0`.

use crate::direction::{shift, Direction};
use vstd::prelude::*;
use vstd::set_lib::{lemma_int_range, lemma_map_size, lemma_subset_equality, set_int_range};

verus! {

/// The number of cells of a grid of side `n`.
pub open spec fn cell_count(n: int) -> int {
    n * n
}

/// `c` is a cell of the grid of side `n`.
pub open spec fn in_grid(n: int, c: (int, int)) -> bool {
    0 <= c.0 < n && 0 <= c.1 < n
}

/// The place of cell `c` in a table of side `n`.
pub open spec fn cell_index(n: int, c: (int, int)) -> int {
    c.1 * n + c.0
}

/// The cell that the table sends `c` to.
pub open spec fn next_cell(t: Seq<Direction>, n: int, c: (int, int)) -> (int, int) {
    shift(c, t[cell_index(n, c)])
}

/// The cell reached from `c` by following the table for `k` steps.
pub open spec fn walk(t: Seq<Direction>, n: int, c: (int, int), k: nat) -> (int, int)
    decreases k,
{
    if k == 0 {
        c
    } else {
        next_cell(t, n, walk(t, n, c, (k - 1) as nat))
    }
}

/// The table is a closed tour of the grid: the first `n * n` cells of the
/// walk from the origin lie in the grid and differ from one another, and the
/// next step is back at the origin.
pub open spec fn is_tour(t: Seq<Direction>, n: int) -> bool {
    &&& n >= 1
    &&& t.len() == cell_count(n)
    &&& forall|k: nat| k < cell_count(n) ==> in_grid(n, #[trigger] walk(t, n, (0, 0), k))
    &&& forall|i: nat, j: nat|
        i < j < cell_count(n) ==> #[trigger] walk(t, n, (0, 0), i) != #[trigger] walk(
            t,
            n,
            (0, 0),
            j,
        )
    &&& walk(t, n, (0, 0), cell_count(n) as nat) == (0int, 0int)
}

/// A cell of the grid has its place inside the table.
pub proof fn lemma_index_in_table(n: int, c: (int, int))
    requires
        in_grid(n, c),
    ensures
        0 <= cell_index(n, c) < cell_count(n),
{
    assert(0 <= c.1 * n && c.1 * n + n <= n * n) by (nonlinear_arith)
        requires
            0 <= c.1 < n,
    ;
}

/// Two cells of the grid with one place in the table are one cell.
pub proof fn lemma_index_injective(n: int, a: (int, int), b: (int, int))
    requires
        in_grid(n, a),
        in_grid(n, b),
        cell_index(n, a) == cell_index(n, b),
    ensures
        a == b,
{
    if a.1 < b.1 {
        assert(a.1 * n + n <= b.1 * n) by (nonlinear_arith)
            requires
                a.1 < b.1,
                n > 0,
        ;
    } else if b.1 < a.1 {
        assert(b.1 * n + n <= a.1 * n) by (nonlinear_arith)
            requires
                b.1 < a.1,
                n > 0,
        ;
    }
}

/// Walking `a` steps and then `b` more is walking `a + b`.
pub proof fn lemma_walk_add(t: Seq<Direction>, n: int, c: (int, int), a: nat, b: nat)
    ensures
        walk(t, n, c, a + b) == walk(t, n, walk(t, n, c, a), b),
    decreases b,
{
    if b > 0 {
        lemma_walk_add(t, n, c, a, (b - 1) as nat);
        assert(a + b - 1 == a + (b - 1) as nat);
    }
}

/// On a tour, a full round from the origin changes nothing: step `k` and step
/// `k + n * n` are at the same cell.
pub proof fn lemma_walk_wraps(t: Seq<Direction>, n: int, k: nat)
    requires
        is_tour(t, n),
    ensures
        walk(t, n, (0, 0), cell_count(n) as nat + k) == walk(t, n, (0, 0), k),
{
    lemma_walk_add(t, n, (0, 0), cell_count(n) as nat, k);
}

/// A tour visits every cell of the grid within its first `n * n` steps.
pub proof fn lemma_tour_covers(t: Seq<Direction>, n: int, c: (int, int))
    requires
        is_tour(t, n),
        in_grid(n, c),
    ensures
        exists|k: nat| k < cell_count(n) && walk(t, n, (0, 0), k) == c,
{
    let m = cell_count(n);
    let steps = set_int_range(0, m);
    let place = |k: int| cell_index(n, walk(t, n, (0, 0), k as nat));
    let visited = steps.map(place);
    assert(m >= 1) by (nonlinear_arith)
        requires
            n >= 1,
            m == n * n,
    ;
    lemma_int_range(0, m);
    assert(vstd::relations::injective_on(place, steps)) by {
        assert forall|i: int, j: int|
            steps.contains(i) && steps.contains(j) && #[trigger] place(i) == #[trigger] place(
                j,
            ) implies i == j by {
            let a = walk(t, n, (0, 0), i as nat);
            let b = walk(t, n, (0, 0), j as nat);
            lemma_index_injective(n, a, b);
            if i < j {
                assert(walk(t, n, (0, 0), i as nat) != walk(t, n, (0, 0), j as nat));
            } else if j < i {
                assert(walk(t, n, (0, 0), j as nat) != walk(t, n, (0, 0), i as nat));
            }
        }
    }
    lemma_map_size(steps, visited, place);
    assert(visited.subset_of(steps)) by {
        assert forall|x: int| visited.contains(x) implies steps.contains(x) by {
            let k = choose|k: int| steps.contains(k) && x == place(k);
            lemma_index_in_table(n, walk(t, n, (0, 0), k as nat));
        }
    }
    lemma_subset_equality(visited, steps);
    lemma_index_in_table(n, c);
    assert(steps.contains(cell_index(n, c)));
    assert(visited.contains(cell_index(n, c)));
    let k = choose|k: int| steps.contains(k) && cell_index(n, c) == place(k);
    lemma_index_injective(n, c, walk(t, n, (0, 0), k as nat));
    assert((k as nat) < cell_count(n) && walk(t, n, (0, 0), k as nat) == c);
}

/// On a tour, the table sends every cell of the grid to a cell of the grid.
pub proof fn lemma_next_in_grid(t: Seq<Direction>, n: int, c: (int, int))
    requires
        is_tour(t, n),
        in_grid(n, c),
    ensures
        in_grid(n, next_cell(t, n, c)),
{
    lemma_tour_covers(t, n, c);
    let k = choose|k: nat| k < cell_count(n) && walk(t, n, (0, 0), k) == c;
    assert(walk(t, n, (0, 0), k + 1) == next_cell(t, n, c));
    if k + 1 < cell_count(n) {
        assert(in_grid(n, walk(t, n, (0, 0), k + 1)));
    }
}

/// On a tour, a walk that starts in the grid stays in it.
pub proof fn lemma_walk_in_grid(t: Seq<Direction>, n: int, c: (int, int), k: nat)
    requires
        is_tour(t, n),
        in_grid(n, c),
    ensures
        in_grid(n, walk(t, n, c, k)),
    decreases k,
{
    if k > 0 {
        lemma_walk_in_grid(t, n, c, (k - 1) as nat);
        lemma_next_in_grid(t, n, walk(t, n, c, (k - 1) as nat));
    }
}

/// On a tour, a walk from any cell of the grid is back where it began after
/// `n * n` steps.
pub proof fn lemma_tour_period(t: Seq<Direction>, n: int, c: (int, int))
    requires
        is_tour(t, n),
        in_grid(n, c),
    ensures
        walk(t, n, c, cell_count(n) as nat) == c,
{
    let m = cell_count(n) as nat;
    lemma_tour_covers(t, n, c);
    let k = choose|k: nat| k < cell_count(n) && walk(t, n, (0, 0), k) == c;
    lemma_walk_add(t, n, (0, 0), k, m);
    lemma_walk_wraps(t, n, k);
    assert(k + m == m + k);
}

/// On a tour, a walk from any cell of the grid does not meet a cell twice
/// within `n * n` steps.
pub proof fn lemma_walk_distinct(t: Seq<Direction>, n: int, c: (int, int), i: nat, j: nat)
    requires
        is_tour(t, n),
        in_grid(n, c),
        i < j < cell_count(n),
    ensures
        walk(t, n, c, i) != walk(t, n, c, j),
{
    let m = cell_count(n) as nat;
    lemma_tour_covers(t, n, c);
    let k = choose|k: nat| k < cell_count(n) && walk(t, n, (0, 0), k) == c;
    lemma_walk_add(t, n, (0, 0), k, i);
    lemma_walk_add(t, n, (0, 0), k, j);
    if k + j < m {
        assert(walk(t, n, (0, 0), k + i) != walk(t, n, (0, 0), k + j));
    } else if k + i < m {
        let r = (k + j - m) as nat;
        lemma_walk_wraps(t, n, r);
        assert(m + r == k + j);
        assert(walk(t, n, (0, 0), r) != walk(t, n, (0, 0), k + i));
    } else {
        let r = (k + i - m) as nat;
        let s = (k + j - m) as nat;
        lemma_walk_wraps(t, n, r);
        lemma_walk_wraps(t, n, s);
        assert(m + r == k + i);
        assert(m + s == k + j);
        assert(walk(t, n, (0, 0), r) != walk(t, n, (0, 0), s));
    }
}

/// On a tour, every cell of the grid is reached from every other within
/// `n * n - 1` steps.
pub proof fn lemma_tour_connects(t: Seq<Direction>, n: int, from: (int, int), to: (int, int))
    requires
        is_tour(t, n),
        in_grid(n, from),
        in_grid(n, to),
    ensures
        exists|d: nat| d < cell_count(n) && walk(t, n, from, d) == to,
{
    let m = cell_count(n) as nat;
    lemma_tour_covers(t, n, from);
    let i = choose|k: nat| k < cell_count(n) && walk(t, n, (0, 0), k) == from;
    lemma_tour_covers(t, n, to);
    let j = choose|k: nat| k < cell_count(n) && walk(t, n, (0, 0), k) == to;
    if i <= j {
        let d = (j - i) as nat;
        lemma_walk_add(t, n, (0, 0), i, d);
        assert(i + d == j);
        assert(d < cell_count(n) && walk(t, n, from, d) == to);
    } else {
        let d = (m - i + j) as nat;
        lemma_walk_add(t, n, (0, 0), i, d);
        lemma_walk_wraps(t, n, j);
        assert(i + d == m + j);
        assert(d < cell_count(n) && walk(t, n, from, d) == to);
    }
}

/// On a tour, no two cells of the grid are sent to the same cell.
pub proof fn lemma_next_injective(t: Seq<Direction>, n: int, a: (int, int), b: (int, int))
    requires
        is_tour(t, n),
        in_grid(n, a),
        in_grid(n, b),
        next_cell(t, n, a) == next_cell(t, n, b),
    ensures
        a == b,
{
    let m = cell_count(n) as nat;
    lemma_tour_covers(t, n, a);
    let i = choose|k: nat| k < cell_count(n) && walk(t, n, (0, 0), k) == a;
    lemma_tour_covers(t, n, b);
    let j = choose|k: nat| k < cell_count(n) && walk(t, n, (0, 0), k) == b;
    assert(walk(t, n, (0, 0), i + 1) == next_cell(t, n, a));
    assert(walk(t, n, (0, 0), j + 1) == next_cell(t, n, b));
    assert(walk(t, n, (0, 0), 0) == (0int, 0int));
    if i < j {
        if j + 1 < m {
            assert(walk(t, n, (0, 0), i + 1) != walk(t, n, (0, 0), j + 1));
        } else {
            assert(walk(t, n, (0, 0), 0) != walk(t, n, (0, 0), i + 1));
        }
    } else if j < i {
        if i + 1 < m {
            assert(walk(t, n, (0, 0), j + 1) != walk(t, n, (0, 0), i + 1));
        } else {
            assert(walk(t, n, (0, 0), 0) != walk(t, n, (0, 0), j + 1));
        }
    }
}

/// On a tour, walks of one length from two cells of the grid end on two
/// cells.
pub proof fn lemma_walk_injective(t: Seq<Direction>, n: int, a: (int, int), b: (int, int), k: nat)
    requires
        is_tour(t, n),
        in_grid(n, a),
        in_grid(n, b),
        walk(t, n, a, k) == walk(t, n, b, k),
    ensures
        a == b,
    decreases k,
{
    if k > 0 {
        lemma_walk_in_grid(t, n, a, (k - 1) as nat);
        lemma_walk_in_grid(t, n, b, (k - 1) as nat);
        lemma_next_injective(t, n, walk(t, n, a, (k - 1) as nat), walk(t, n, b, (k - 1) as nat));
        lemma_walk_injective(t, n, a, b, (k - 1) as nat);
    }
}

/// Replays the table from the origin, marking each cell it meets, and reports
/// whether the table is a closed tour of the grid of side `n`.
pub fn closes_tour(table: &Vec<Direction>, n: usize) -> (ok: bool)
    ensures
        ok == is_tour(table@, n as int),
{
    let total = table.len();
    if n == 0 || n.checked_mul(n) != Some(total) {
        return false;
    }
    let mut seen: Vec<bool> = vec![false; total];
    let mut col: usize = 0;
    let mut row: usize = 0;
    let mut steps: usize = 0;
    loop
        invariant
            n >= 1,
            total == n * n,
            total == table.len(),
            seen.len() == total,
            steps <= total,
            col < n,
            row < n,
            walk(table@, n as int, (0, 0), steps as nat) == (col as int, row as int),
            steps > 0 ==> !(col == 0 && row == 0),
            forall|k: nat| k < steps ==> in_grid(n as int, #[trigger] walk(table@, n as int, (0, 0), k)),
            forall|i: nat, j: nat|
                i < j < steps ==> #[trigger] walk(table@, n as int, (0, 0), i) != #[trigger] walk(
                    table@,
                    n as int,
                    (0, 0),
                    j,
                ),
            forall|k: nat|
                k < steps ==> seen[cell_index(
                    n as int,
                    #[trigger] walk(table@, n as int, (0, 0), k),
                )],
            forall|i: int|
                0 <= i < total && #[trigger] seen[i] ==> exists|k: nat|
                    k < steps && cell_index(n as int, walk(table@, n as int, (0, 0), k)) == i,
        decreases total - steps,
    {
        let ghost here = (col as int, row as int);
        assert(total == cell_count(n as int) && total >= 1) by (nonlinear_arith)
            requires
                total == n * n,
                n >= 1,
        ;
        if steps == total {
            return false;
        }
        proof {
            lemma_index_in_table(n as int, here);
        }
        let idx = row * n + col;
        if seen[idx] {
            proof {
                let k = choose|k: nat|
                    k < steps && cell_index(n as int, walk(table@, n as int, (0, 0), k)) == idx;
                lemma_index_injective(n as int, walk(table@, n as int, (0, 0), k), here);
                assert(walk(table@, n as int, (0, 0), k) == walk(
                    table@,
                    n as int,
                    (0, 0),
                    steps as nat,
                ));
            }
            return false;
        }
        let ghost before = seen@;
        seen[idx] = true;
        proof {
            assert forall|k: nat| k < steps + 1 implies seen[cell_index(
                n as int,
                #[trigger] walk(table@, n as int, (0, 0), k),
            )] by {
                lemma_index_in_table(n as int, walk(table@, n as int, (0, 0), k));
            }
            assert forall|i: nat, j: nat| i < j < steps + 1 implies #[trigger] walk(
                table@,
                n as int,
                (0, 0),
                i,
            ) != #[trigger] walk(table@, n as int, (0, 0), j) by {
                if j == steps {
                    assert(before[cell_index(n as int, walk(table@, n as int, (0, 0), i))]);
                }
            }
            assert forall|i: int| 0 <= i < total && #[trigger] seen[i] implies exists|k: nat|
                k < steps + 1 && cell_index(n as int, walk(table@, n as int, (0, 0), k)) == i by {
                if i == idx {
                    assert(cell_index(n as int, walk(table@, n as int, (0, 0), steps as nat)) == i);
                } else {
                    assert(before[i]);
                    let k = choose|k: nat|
                        k < steps && cell_index(n as int, walk(table@, n as int, (0, 0), k)) == i;
                    assert(k < steps + 1 && cell_index(
                        n as int,
                        walk(table@, n as int, (0, 0), k),
                    ) == i);
                }
            }
            assert(walk(table@, n as int, (0, 0), (steps + 1) as nat) == next_cell(
                table@,
                n as int,
                here,
            ));
        }
        match table[idx] {
            Direction::Up => {
                if row + 1 == n {
                    proof {
                        lemma_left_grid(table@, n as int, (steps + 1) as nat);
                    }
                    return false;
                }
                row = row + 1;
            },
            Direction::Down => {
                if row == 0 {
                    proof {
                        lemma_left_grid(table@, n as int, (steps + 1) as nat);
                    }
                    return false;
                }
                row = row - 1;
            },
            Direction::Left => {
                if col == 0 {
                    proof {
                        lemma_left_grid(table@, n as int, (steps + 1) as nat);
                    }
                    return false;
                }
                col = col - 1;
            },
            Direction::Right => {
                if col + 1 == n {
                    proof {
                        lemma_left_grid(table@, n as int, (steps + 1) as nat);
                    }
                    return false;
                }
                col = col + 1;
            },
        }
        steps = steps + 1;
        if col == 0 && row == 0 {
            proof {
                if steps < total && is_tour(table@, n as int) {
                    assert(walk(table@, n as int, (0, 0), 0) != walk(
                        table@,
                        n as int,
                        (0, 0),
                        steps as nat,
                    ));
                }
            }
            return steps == total;
        }
    }
}

/// A table whose walk from the origin is outside the grid after at most
/// `n * n` steps is no tour.
proof fn lemma_left_grid(t: Seq<Direction>, n: int, k: nat)
    requires
        n >= 1,
        k <= cell_count(n),
        !in_grid(n, walk(t, n, (0, 0), k)),
    ensures
        !is_tour(t, n),
{
}

} // verus!
