use hamilton_snake::base_path::base_path;
use hamilton_snake::snake::Snake;
use hamilton_snake::Direction;
use hamilton_snake::Direction::{Left, Right, Up};

fn bot_field_of_four(body: Vec<(i32, i32)>, apple: (i32, i32)) -> Snake {
    Snake::from_parts((-1, -1, 5, 5), body, apple, Up, base_path(4)).unwrap()
}

fn cells_of(snake: &Snake) -> Vec<(i32, i32)> {
    snake.body().iter().copied().collect()
}

fn well_formed(snake: &Snake) -> bool {
    Snake::from_parts(
        snake.borders(),
        cells_of(snake),
        snake.apple(),
        snake.direction(),
        snake.direction_path().clone(),
    )
    .is_some()
}

#[test]
fn bot_takes_the_shortcut_to_a_target_behind_it() {
    let mut snake = bot_field_of_four(vec![(0, 0)], (0, 1));
    assert_eq!(snake.path_direction(0, 0), Right);
    assert_eq!(snake.path_len(0, 0), 15);
    assert_eq!(snake.bot_move(), Up);
    snake.set_direction(Up);
    assert!(snake.step());
    assert_eq!(cells_of(&snake), vec![(0, 1), (0, 0)]);
}

#[test]
fn bot_follows_the_tour_where_no_move_is_nearer() {
    let snake = bot_field_of_four(vec![(0, 0)], (1, 0));
    assert_eq!(snake.bot_move(), Right);
    let snake = bot_field_of_four(vec![(1, 1)], (2, 2));
    assert_eq!(snake.path_direction(1, 1), Up);
    assert_eq!(snake.bot_move(), Up);
}

#[test]
fn bot_takes_the_one_move_that_is_nearer() {
    let snake = bot_field_of_four(vec![(1, 1)], (0, 3));
    assert_eq!(snake.bot_move(), Right);
    let snake = bot_field_of_four(vec![(2, 1)], (3, 3));
    assert_eq!(snake.bot_move(), Right);
}

#[test]
fn bot_keeps_the_first_shortcut_against_a_longer_one() {
    // Up leaves 2 steps, right leaves 4.
    let snake = bot_field_of_four(vec![(2, 2)], (1, 3));
    assert_eq!(snake.bot_move(), Up);
}

#[test]
fn bot_replaces_a_shortcut_by_a_shorter_one() {
    // Up leaves 4 steps, left leaves 2.
    let snake = bot_field_of_four(vec![(1, 2)], (0, 1));
    assert_eq!(snake.path_len(1, 3) + 1, 4);
    assert_eq!(snake.path_len(0, 2) + 1, 2);
    assert_eq!(snake.bot_move(), Left);
}

#[test]
fn bot_refuses_a_shortcut_with_a_short_free_run() {
    let snake = bot_field_of_four(vec![(1, 2), (0, 2), (0, 1), (0, 0)], (0, 3));
    assert_eq!(snake.path_len(1, 2), 10);
    assert_eq!(snake.path_len(1, 3) + 1, 2);
    assert_eq!(snake.free_path_len(1, 3, 4), 2);
    assert_eq!(snake.bot_move(), Right);
}

#[test]
fn bot_takes_the_same_shortcut_with_a_shorter_snake() {
    let snake = bot_field_of_four(vec![(1, 2), (0, 2)], (0, 3));
    assert_eq!(snake.free_path_len(1, 3, 2), 2);
    assert_eq!(snake.bot_move(), Up);
}

#[test]
fn bot_does_not_move_onto_the_body() {
    // The cell to the left is one step from the target, but the snake
    // covers it.
    let snake = bot_field_of_four(vec![(1, 2), (0, 2), (0, 3)], (0, 1));
    assert_eq!(snake.bot_move(), Up);
}

#[test]
fn bot_moves_nearer_to_the_target_from_every_cell() {
    for y in 0..4 {
        for x in 0..4 {
            if (x, y) == (0, 0) {
                continue;
            }
            let snake = bot_field_of_four(vec![(x, y)], (0, 0));
            let d = snake.bot_move();
            let to = d.moved((x, y));
            assert!(snake.path_len(to.0, to.1) < snake.path_len(x, y));
        }
    }
}

#[test]
fn bot_weighs_up_before_right() {
    // Up leaves 6 steps and is weighed first; right leaves 8.
    let snake = bot_field_of_four(vec![(2, 2)], (0, 0));
    assert_eq!(snake.path_len(2, 2), 12);
    assert_eq!(snake.path_len(2, 3) + 1, 6);
    assert_eq!(snake.path_len(3, 2) + 1, 8);
    assert_eq!(snake.bot_move(), Up);
}

#[test]
fn bot_plays_a_new_game_without_leaving_a_well_formed_state() {
    let mut snake = Snake::new((-4, -4, 4, 4));
    assert_eq!(cells_of(&snake), vec![(0, 0)]);
    assert_eq!(snake.apple(), (1, 1));
    assert_eq!(snake.direction(), Up);
    assert_eq!(snake.borders(), (-4, -4, 4, 4));
    assert_eq!(snake.direction_path().len(), 36);
    assert!(well_formed(&snake));
    let mut longest = 1;
    for _ in 0..3000 {
        if snake.body().len() == 0 {
            break;
        }
        let head = snake.body()[0];
        let along = snake.path_direction(head.0, head.1);
        let chosen: Direction = snake.bot_move();
        snake.set_direction(chosen);
        let full = snake.body().len() == 36;
        let advanced = snake.step();
        if chosen != along {
            assert!(advanced);
        }
        if full {
            assert!(!advanced);
            break;
        }
        assert!(well_formed(&snake));
        longest = longest.max(snake.body().len());
        if !advanced {
            break;
        }
    }
    assert!(longest > 1);
}

#[test]
fn first_step_of_a_new_game_along_the_tour_keeps_the_length() {
    let mut snake = Snake::new((-4, -4, 4, 4));
    let along = snake.path_direction(0, 0);
    snake.set_direction(along);
    assert!(snake.step());
    assert_eq!(snake.body().len(), 1);
    assert_eq!(snake.body()[0], along.moved((0, 0)));
    assert_eq!(snake.apple(), (1, 1));
}
