use hamilton_snake::base_path::base_path;
use hamilton_snake::snake::Snake;
use hamilton_snake::Direction::{Right, Up};

#[test]
fn from_parts_reads_back_what_it_was_given() {
    let snake =
        Snake::from_parts((-1, -1, 5, 5), vec![(1, 1), (1, 0)], (2, 3), Right, base_path(4))
            .unwrap();
    assert_eq!(snake.body().iter().copied().collect::<Vec<_>>(), vec![(1, 1), (1, 0)]);
    assert_eq!(snake.apple(), (2, 3));
    assert_eq!(snake.direction(), Right);
    assert_eq!(snake.borders(), (-1, -1, 5, 5));
    assert_eq!(snake.direction_path(), &base_path(4));
}

#[test]
fn from_parts_accepts_no_snake_at_all() {
    assert!(Snake::from_parts((-1, -1, 5, 5), vec![], (2, 3), Up, base_path(4)).is_some());
}

#[test]
fn from_parts_refuses_a_field_that_is_not_square() {
    assert!(Snake::from_parts((-1, -1, 5, 6), vec![(0, 0)], (1, 1), Up, base_path(4)).is_none());
}

#[test]
fn from_parts_refuses_a_field_without_interior() {
    assert!(Snake::from_parts((0, 0, 2, 2), vec![], (1, 1), Up, vec![]).is_none());
    assert!(Snake::from_parts((5, 5, 0, 0), vec![], (1, 1), Up, vec![]).is_none());
    assert!(
        Snake::from_parts((i32::MIN, i32::MIN, i32::MAX, i32::MAX), vec![], (1, 1), Up, vec![])
            .is_none()
    );
}

#[test]
fn from_parts_refuses_a_table_of_another_size() {
    assert!(Snake::from_parts((-1, -1, 5, 5), vec![(0, 0)], (1, 1), Up, base_path(6)).is_none());
    assert!(Snake::from_parts((-1, -1, 5, 5), vec![(0, 0)], (1, 1), Up, base_path(2)).is_none());
}

#[test]
fn from_parts_refuses_a_table_that_is_no_tour() {
    let mut table = base_path(4);
    table[5] = Right;
    assert!(Snake::from_parts((-1, -1, 5, 5), vec![(0, 0)], (1, 1), Up, table).is_none());
    assert!(Snake::from_parts((-1, -1, 4, 4), vec![(0, 0)], (1, 1), Up, base_path(3)).is_none());
}

#[test]
fn from_parts_refuses_a_snake_on_the_wall() {
    for cell in [(-1, 0), (0, -1), (4, 0), (0, 4), (9, 9)] {
        assert!(
            Snake::from_parts((-1, -1, 5, 5), vec![(0, 0), cell], (1, 1), Up, base_path(4))
                .is_none()
        );
    }
}

#[test]
fn from_parts_refuses_a_snake_that_crosses_itself() {
    assert!(Snake::from_parts(
        (-1, -1, 5, 5),
        vec![(0, 0), (1, 0), (0, 0)],
        (1, 1),
        Up,
        base_path(4)
    )
    .is_none());
}

#[test]
fn from_parts_refuses_a_target_on_the_wall_or_on_the_snake() {
    assert!(Snake::from_parts((-1, -1, 5, 5), vec![(0, 0)], (4, 1), Up, base_path(4)).is_none());
    assert!(Snake::from_parts((-1, -1, 5, 5), vec![(0, 0)], (1, -1), Up, base_path(4)).is_none());
    assert!(
        Snake::from_parts((-1, -1, 5, 5), vec![(0, 0), (1, 0)], (1, 0), Up, base_path(4))
            .is_none()
    );
}

#[test]
fn from_parts_accepts_a_covered_target_on_a_full_field() {
    let full = vec![(0, 0), (1, 0), (1, 1), (0, 1)];
    let snake = Snake::from_parts((-1, -1, 3, 3), full, (1, 1), Up, base_path(2));
    assert!(snake.is_some());
    let mut snake = snake.unwrap();
    assert!(!snake.step());
    assert_eq!(snake.body().len(), 4);
}

#[test]
fn clone_is_a_second_game_in_the_same_state() {
    let snake =
        Snake::from_parts((-1, -1, 5, 5), vec![(1, 1), (1, 0)], (2, 3), Right, base_path(4))
            .unwrap();
    let mut copy = snake.clone();
    assert_eq!(copy.body(), snake.body());
    assert_eq!(copy.apple(), snake.apple());
    assert_eq!(copy.direction(), snake.direction());
    assert_eq!(copy.borders(), snake.borders());
    assert_eq!(copy.direction_path(), snake.direction_path());
    assert!(copy.step());
    assert_eq!(copy.body().iter().copied().collect::<Vec<_>>(), vec![(2, 1), (1, 1)]);
    assert_eq!(snake.body().iter().copied().collect::<Vec<_>>(), vec![(1, 1), (1, 0)]);
}
