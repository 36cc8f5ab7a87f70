use hamilton_snake::Direction;

const ALL: [Direction; 4] = [Direction::Up, Direction::Down, Direction::Left, Direction::Right];

fn reverse_of(d: Direction) -> Direction {
    match d {
        Direction::Up => Direction::Down,
        Direction::Down => Direction::Up,
        Direction::Left => Direction::Right,
        Direction::Right => Direction::Left,
    }
}

#[test]
fn alternatives_of_up() {
    assert_eq!(Direction::Up.alternative(0), Direction::Left);
    assert_eq!(Direction::Up.alternative(1), Direction::Right);
    assert_eq!(Direction::Up.alternative(2), Direction::Up);
}

#[test]
fn alternatives_of_down() {
    assert_eq!(Direction::Down.alternative(0), Direction::Left);
    assert_eq!(Direction::Down.alternative(1), Direction::Right);
    assert_eq!(Direction::Down.alternative(2), Direction::Down);
}

#[test]
fn alternatives_of_left() {
    assert_eq!(Direction::Left.alternative(0), Direction::Up);
    assert_eq!(Direction::Left.alternative(1), Direction::Down);
    assert_eq!(Direction::Left.alternative(2), Direction::Left);
}

#[test]
fn alternatives_of_right() {
    assert_eq!(Direction::Right.alternative(0), Direction::Up);
    assert_eq!(Direction::Right.alternative(1), Direction::Down);
    assert_eq!(Direction::Right.alternative(2), Direction::Right);
}

#[test]
fn every_direction_has_three_alternatives_without_its_reverse() {
    for d in ALL {
        let turned = [d.alternative(0), d.alternative(1), d.alternative(2)];
        assert_ne!(turned[0], turned[1]);
        assert_ne!(turned[0], turned[2]);
        assert_ne!(turned[1], turned[2]);
        for t in turned {
            assert_ne!(t, reverse_of(d));
        }
    }
}

#[test]
fn moved_shifts_one_coordinate_by_one() {
    assert_eq!(Direction::Up.moved((3, -2)), (3, -1));
    assert_eq!(Direction::Down.moved((3, -2)), (3, -3));
    assert_eq!(Direction::Left.moved((3, -2)), (2, -2));
    assert_eq!(Direction::Right.moved((3, -2)), (4, -2));
}

#[test]
fn directions_are_ordered_as_declared() {
    assert!(Direction::Up < Direction::Down);
    assert!(Direction::Down < Direction::Left);
    assert!(Direction::Left < Direction::Right);
}
