use hamilton_snake::base_path::base_path;
use hamilton_snake::snake::Snake;
use hamilton_snake::Direction;
use hamilton_snake::Direction::{Down, Left, Right, Up};

fn field_of_four(body: Vec<(i32, i32)>, apple: (i32, i32), direction: Direction) -> Snake {
    Snake::from_parts((-1, -1, 5, 5), body, apple, direction, base_path(4)).unwrap()
}

fn field_of_six(body: Vec<(i32, i32)>, apple: (i32, i32), direction: Direction) -> Snake {
    Snake::from_parts((-1, -1, 7, 7), body, apple, direction, base_path(6)).unwrap()
}

fn body_of(snake: &Snake) -> Vec<(i32, i32)> {
    snake.body().iter().copied().collect()
}

fn still_well_formed(snake: &Snake) -> bool {
    Snake::from_parts(
        snake.borders(),
        body_of(snake),
        snake.apple(),
        snake.direction(),
        snake.direction_path().clone(),
    )
    .is_some()
}

#[test]
fn step_off_the_target_keeps_the_length() {
    let mut snake = field_of_six(vec![(0, 0)], (1, 1), Right);
    assert!(snake.step());
    assert_eq!(body_of(&snake), vec![(1, 0)]);
    assert_eq!(snake.apple(), (1, 1));
    assert_eq!(snake.direction(), Right);
    assert!(still_well_formed(&snake));
}

#[test]
fn step_with_the_tour_direction_from_the_origin_of_a_field_of_six() {
    let mut snake = field_of_six(vec![(0, 0)], (1, 1), Up);
    let along = snake.path_direction(0, 0);
    assert_eq!(along, Right);
    snake.set_direction(along);
    assert!(snake.step());
    assert_eq!(snake.body().len(), 1);
    assert_eq!(snake.apple(), (1, 1));
}

#[test]
fn step_onto_the_target_grows_the_snake_and_draws_a_free_target() {
    for _ in 0..200 {
        let mut snake = field_of_six(vec![(0, 0)], (1, 0), Right);
        assert_eq!(snake.vacant_cells(1, 0), 34);
        assert!(snake.step());
        assert_eq!(body_of(&snake), vec![(1, 0), (0, 0)]);
        let apple = snake.apple();
        assert!(apple != (1, 0) && apple != (0, 0));
        assert!(0 <= apple.0 && apple.0 < 6 && 0 <= apple.1 && apple.1 < 6);
        assert!(still_well_formed(&snake));
    }
}

#[test]
fn new_targets_reach_every_free_cell() {
    let mut met = Vec::new();
    for _ in 0..4000 {
        let mut snake = field_of_four(vec![(0, 0)], (1, 0), Right);
        assert!(snake.step());
        if !met.contains(&snake.apple()) {
            met.push(snake.apple());
        }
    }
    assert_eq!(met.len(), 14);
}

#[test]
fn step_into_the_wall_collides_and_drops_the_tail() {
    let mut snake = field_of_four(vec![(0, 0), (1, 0)], (2, 2), Left);
    assert!(!snake.step());
    assert_eq!(body_of(&snake), vec![(0, 0)]);
    assert_eq!(snake.apple(), (2, 2));
    assert!(still_well_formed(&snake));
}

#[test]
fn step_out_of_each_side_collides() {
    for (cell, direction) in [((0, 2), Left), ((3, 2), Right), ((2, 0), Down), ((2, 3), Up)] {
        let mut snake = field_of_four(vec![cell], (1, 1), direction);
        assert!(!snake.step());
        assert_eq!(snake.body().len(), 0);
    }
}

#[test]
fn step_of_no_snake_does_nothing() {
    let mut snake = field_of_four(vec![(0, 0)], (2, 2), Down);
    assert!(!snake.step());
    assert_eq!(snake.body().len(), 0);
    assert!(!snake.step());
    assert_eq!(snake.body().len(), 0);
    assert_eq!(snake.apple(), (2, 2));
    assert_eq!(snake.direction(), Down);
}

#[test]
fn step_into_the_body_collides() {
    let mut snake = field_of_four(vec![(1, 1), (1, 2), (2, 2), (2, 1), (2, 0)], (0, 3), Right);
    assert!(!snake.step());
    assert_eq!(body_of(&snake), vec![(1, 1), (1, 2), (2, 2), (2, 1)]);
    assert!(still_well_formed(&snake));
}

#[test]
fn step_into_the_cell_that_the_tail_leaves_advances() {
    let mut snake = field_of_four(vec![(1, 1), (1, 2), (2, 2), (2, 1)], (0, 3), Right);
    assert!(snake.step());
    assert_eq!(body_of(&snake), vec![(2, 1), (1, 1), (1, 2), (2, 2)]);
    assert!(still_well_formed(&snake));
}

#[test]
fn step_onto_the_target_does_not_free_the_tail() {
    // The target lies next to the head and the tail's cell stays covered.
    let mut snake = field_of_four(vec![(1, 1), (1, 2), (2, 2), (2, 1)], (1, 0), Down);
    assert!(snake.step());
    assert_eq!(body_of(&snake), vec![(1, 0), (1, 1), (1, 2), (2, 2), (2, 1)]);
    assert!(!body_of(&snake).contains(&snake.apple()));
    assert!(still_well_formed(&snake));
}

#[test]
fn last_free_cell_is_taken_and_then_nothing_moves() {
    let body = vec![
        (0, 2),
        (0, 3),
        (1, 3),
        (2, 3),
        (3, 3),
        (3, 2),
        (3, 1),
        (3, 0),
        (2, 0),
        (2, 1),
        (2, 2),
        (1, 2),
        (1, 1),
        (1, 0),
        (0, 0),
    ];
    let mut snake = field_of_four(body.clone(), (0, 1), Down);
    assert_eq!(snake.path_direction(0, 2), Down);
    assert_eq!(snake.vacant_cells(0, 1), 0);
    assert!(snake.step());
    let mut full = vec![(0, 1)];
    full.extend(body);
    assert_eq!(body_of(&snake), full);
    assert_eq!(snake.body().len(), 16);
    assert_eq!(snake.apple(), (0, 1));
    assert!(still_well_formed(&snake));
    for direction in [Up, Down, Left, Right] {
        snake.set_direction(direction);
        assert!(!snake.step());
        assert_eq!(body_of(&snake), full);
        assert_eq!(snake.apple(), (0, 1));
    }
}

#[test]
fn set_direction_changes_the_direction_alone() {
    let mut snake = field_of_four(vec![(1, 1), (1, 2)], (3, 3), Up);
    snake.set_direction(Left);
    assert_eq!(snake.direction(), Left);
    assert_eq!(body_of(&snake), vec![(1, 1), (1, 2)]);
    assert_eq!(snake.apple(), (3, 3));
    assert_eq!(snake.borders(), (-1, -1, 5, 5));
    assert_eq!(snake.direction_path(), &base_path(4));
}

#[test]
fn following_the_tour_never_collides_until_the_field_is_full() {
    for start in 0..3 {
        let body = match start {
            0 => vec![(0, 0)],
            1 => vec![(1, 2), (1, 1), (1, 0), (0, 0)],
            _ => vec![(2, 3), (3, 3), (3, 2), (3, 1), (3, 0), (2, 0), (2, 1)],
        };
        let mut snake = field_of_four(body, (0, 1), Up);
        let mut steps = 0;
        while snake.body().len() < 16 {
            let head = snake.body()[0];
            let along = snake.path_direction(head.0, head.1);
            snake.set_direction(along);
            let before = snake.body().len();
            let target = snake.apple();
            assert!(snake.step());
            let grew = snake.body()[0] == target;
            assert_eq!(snake.body().len(), if grew { before + 1 } else { before });
            steps += 1;
            assert!(steps <= 16 * 16);
        }
        assert!(still_well_formed(&snake));
        assert!(!snake.step());
        assert_eq!(snake.body().len(), 16);
    }
}
