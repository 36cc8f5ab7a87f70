use hamilton_snake::base_path::base_path;
use hamilton_snake::search::{keeps_tour, neighbour_index, perturb, propose, random_dir, Perturbation};
use hamilton_snake::snake::Snake;
use hamilton_snake::tour::closes_tour;
use hamilton_snake::Direction;
use hamilton_snake::Direction::{Down, Left, Right, Up};

/// Replays a table from the origin and counts the cells met before the walk
/// leaves the grid, meets a cell again or is back at the origin.
fn replay_is_closed_tour(table: &[Direction], n: usize) -> bool {
    if n == 0 || table.len() != n * n {
        return false;
    }
    let mut seen = vec![false; n * n];
    let (mut x, mut y) = (0i64, 0i64);
    for _ in 0..n * n {
        let idx = (y as usize) * n + x as usize;
        if seen[idx] {
            return false;
        }
        seen[idx] = true;
        match table[idx] {
            Up => y += 1,
            Down => y -= 1,
            Left => x -= 1,
            Right => x += 1,
        }
        if x < 0 || y < 0 || x >= n as i64 || y >= n as i64 {
            return false;
        }
    }
    x == 0 && y == 0 && seen.iter().all(|s| *s)
}

fn reverse_direction(d: Direction) -> Direction {
    match d {
        Up => Down,
        Down => Up,
        Left => Right,
        Right => Left,
    }
}

#[test]
fn base_path_of_side_two() {
    assert_eq!(base_path(2), vec![Right, Up, Down, Left]);
}

#[test]
fn base_path_of_side_four() {
    assert_eq!(
        base_path(4),
        vec![
            Right, Up, Right, Up, //
            Down, Up, Down, Up, //
            Down, Right, Down, Up, //
            Down, Left, Left, Left,
        ]
    );
}

#[test]
fn base_path_of_side_zero_is_empty() {
    assert_eq!(base_path(0), Vec::<Direction>::new());
}

#[test]
fn base_path_of_even_side_is_a_closed_tour() {
    for n in [2usize, 4, 6, 8, 10, 20] {
        let table = base_path(n);
        assert_eq!(table.len(), n * n);
        assert!(replay_is_closed_tour(&table, n));
        assert!(closes_tour(&table, n));
    }
}

#[test]
fn base_path_of_odd_side_is_no_tour() {
    for n in [1usize, 3, 5, 7] {
        let table = base_path(n);
        assert_eq!(table.len(), n * n);
        assert!(!replay_is_closed_tour(&table, n));
        assert!(!closes_tour(&table, n));
    }
}

#[test]
fn closes_tour_accepts_the_reversed_square() {
    assert!(closes_tour(&vec![Up, Left, Right, Down], 2));
}

#[test]
fn closes_tour_rejects_a_walk_that_leaves_the_grid() {
    assert!(!closes_tour(&vec![Up, Up, Up, Up], 2));
    assert!(!closes_tour(&vec![Left, Up, Down, Left], 2));
    assert!(!closes_tour(&vec![Down, Up, Down, Left], 2));
}

#[test]
fn closes_tour_rejects_a_short_loop() {
    let mut table = base_path(4);
    // The origin and the cell above it send the walk to and fro.
    table[0] = Up;
    assert!(!closes_tour(&table, 4));
    assert!(!replay_is_closed_tour(&table, 4));
}

#[test]
fn closes_tour_rejects_a_loop_that_misses_the_origin() {
    // From the origin to the right, then round the three other cells is
    // impossible on a square of side two; on side four a loop may close
    // away from the origin.
    let mut table = base_path(4);
    table[1] = Up;
    table[5] = Right;
    table[6] = Down;
    table[2] = Left;
    assert!(!closes_tour(&table, 4));
    assert!(!replay_is_closed_tour(&table, 4));
}

#[test]
fn closes_tour_agrees_with_replay_on_single_changes() {
    let base = base_path(4);
    for index in 0..16 {
        for d in [Up, Down, Left, Right] {
            let mut table = base.clone();
            table[index] = d;
            assert_eq!(closes_tour(&table, 4), replay_is_closed_tour(&table, 4));
            assert_eq!(closes_tour(&table, 4), d == base[index]);
        }
    }
}

#[test]
fn neighbour_index_inside_the_table() {
    // Index 5 of side 4 is the cell in column 1 of row 1.
    assert_eq!(neighbour_index(5, 0, 4), 4);
    assert_eq!(neighbour_index(5, 1, 4), 2);
    assert_eq!(neighbour_index(5, 2, 4), 1);
    assert_eq!(neighbour_index(5, 3, 4), 0);
    assert_eq!(neighbour_index(5, 4, 4), 6);
    assert_eq!(neighbour_index(5, 5, 4), 8);
    assert_eq!(neighbour_index(5, 6, 4), 10);
    assert_eq!(neighbour_index(5, 7, 4), 9);
}

#[test]
fn neighbour_index_is_held_inside_the_table() {
    for k in 0..4 {
        assert_eq!(neighbour_index(0, k, 4), 0);
    }
    assert_eq!(neighbour_index(3, 2, 4), 0);
    assert_eq!(neighbour_index(4, 3, 4), 0);
    for k in 4..8 {
        assert_eq!(neighbour_index(15, k, 4), 15);
    }
    assert_eq!(neighbour_index(12, 7, 4), 15);
    assert_eq!(neighbour_index(11, 6, 4), 15);
    assert_eq!(neighbour_index(0, 1, 1), 0);
    assert_eq!(neighbour_index(0, 5, 1), 0);
}

#[test]
fn perturb_makes_the_changes_in_order() {
    let mut table = base_path(2);
    let p = Perturbation {
        index1: 0,
        index2: 1,
        index3: 1,
        index4: 3,
        dir1: Up,
        dir2: Left,
        dir3: Down,
        dir4: Right,
    };
    perturb(&mut table, &p);
    assert_eq!(table, vec![Up, Down, Down, Right]);
}

#[test]
fn keeps_tour_accepts_the_unchanged_table() {
    let table = base_path(4);
    let same = Perturbation {
        index1: 0,
        index2: 1,
        index3: 14,
        index4: 15,
        dir1: table[0],
        dir2: table[1],
        dir3: table[14],
        dir4: table[15],
    };
    assert!(keeps_tour(&table, 4, &same));
    assert_eq!(table, base_path(4));
}

#[test]
fn keeps_tour_accepts_the_turned_round_square() {
    let table = base_path(2);
    let turned = Perturbation {
        index1: 0,
        index2: 1,
        index3: 3,
        index4: 2,
        dir1: Up,
        dir2: Left,
        dir3: Down,
        dir4: Right,
    };
    assert!(keeps_tour(&table, 2, &turned));
}

#[test]
fn keeps_tour_rejects_a_broken_table() {
    let table = base_path(4);
    let broken = Perturbation {
        index1: 0,
        index2: 1,
        index3: 14,
        index4: 15,
        dir1: Up,
        dir2: table[1],
        dir3: table[14],
        dir4: table[15],
    };
    assert!(!keeps_tour(&table, 4, &broken));
}

#[test]
fn random_dir_never_turns_back_and_reaches_every_alternative() {
    for d in [Up, Down, Left, Right] {
        let mut met = Vec::new();
        for _ in 0..2000 {
            let turned = random_dir(d);
            assert_ne!(turned, reverse_direction(d));
            if !met.contains(&turned) {
                met.push(turned);
            }
        }
        assert_eq!(met.len(), 3);
    }
}

#[test]
fn proposals_fit_the_table_and_pair_neighbours() {
    let n = 6usize;
    let table = base_path(n);
    let mut first_cells = Vec::new();
    for _ in 0..2000 {
        let p = propose(&table, n);
        for index in [p.index1, p.index2, p.index3, p.index4] {
            assert!(index < n * n);
        }
        assert!((0..8).any(|k| neighbour_index(p.index1, k, n) == p.index2));
        assert!((0..8).any(|k| neighbour_index(p.index3, k, n) == p.index4));
        assert_ne!(p.dir1, reverse_direction(table[p.index1]));
        assert_ne!(p.dir2, reverse_direction(table[p.index2]));
        assert_ne!(p.dir3, reverse_direction(table[p.index3]));
        assert_ne!(p.dir4, reverse_direction(table[p.index4]));
        if !first_cells.contains(&p.index1) {
            first_cells.push(p.index1);
        }
    }
    assert!(first_cells.len() > 1);
}

#[test]
fn built_tours_are_closed() {
    for size in [2u32, 4, 6, 8] {
        let n = size as usize;
        let table = Snake::init_path_direction(size);
        assert_eq!(table.len(), n * n);
        assert!(replay_is_closed_tour(&table, n));
        assert!(closes_tour(&table, n));
    }
}

#[test]
fn tour_of_side_zero_is_empty() {
    assert_eq!(Snake::init_path_direction(0), Vec::<Direction>::new());
}
