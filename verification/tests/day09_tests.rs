use advent::day09::{day09a, get_times, move_head, move_tail, next_to, Move};

#[test]
fn move_tail_right_test() {
    let actual = move_tail((2, 0), (0, 0));
    let expected = (1, 0);
    assert_eq!(expected, actual);
}

#[test]
fn move_tail_left_test() {
    let actual = move_tail((2, 0), (4, 0));
    let expected = (3, 0);
    assert_eq!(expected, actual);
}

#[test]
fn move_tail_up_test() {
    let actual = move_tail((0, 2), (0, 0));
    let expected = (0, 1);
    assert_eq!(expected, actual);
}

#[test]
fn move_tail_down_test() {
    let actual = move_tail((0, 2), (0, 4));
    let expected = (0, 3);
    assert_eq!(expected, actual);
}

#[test]
fn move_tail_up_right_test() {
    let actual = move_tail((1, 2), (0, 0));
    let expected = (1, 1);
    assert_eq!(expected, actual);
}

#[test]
fn move_tail_up_left_test() {
    let actual = move_tail((-1, 2), (0, 0));
    let expected = (-1, 1);
    assert_eq!(expected, actual);
}

#[test]
fn move_tail_down_right_test() {
    let actual = move_tail((1, -2), (0, 0));
    let expected = (1, -1);
    assert_eq!(expected, actual);
}

#[test]
fn move_tail_down_left_test() {
    let actual = move_tail((-1, -2), (0, 0));
    let expected = (-1, -1);
    assert_eq!(expected, actual);
}

#[test]
fn move_head_steps_one_cell() {
    assert_eq!(move_head(&Move::Right(3), (0, 0)), (1, 0));
    assert_eq!(move_head(&Move::Left(3), (0, 0)), (-1, 0));
    assert_eq!(move_head(&Move::Up(3), (0, 0)), (0, 1));
    assert_eq!(move_head(&Move::Down(3), (0, 0)), (0, -1));
}

#[test]
fn get_times_reads_the_step_count() {
    assert_eq!(*get_times(&Move::Right(4)), 4);
    assert_eq!(*get_times(&Move::Up(7)), 7);
}

#[test]
fn next_to_covers_the_eight_neighbours() {
    assert!(next_to((1, 1), (0, 0)));
    assert!(next_to((0, 1), (0, 0)));
    assert!(next_to((-1, -1), (0, 0)));
    assert!(!next_to((0, 0), (0, 0)));
    assert!(!next_to((2, 0), (0, 0)));
}

#[test]
fn mod_find_visible_trees() {
    let moves = vec![
        Move::Right(4),
        Move::Up(4),
        Move::Left(3),
        Move::Down(1),
        Move::Right(4),
        Move::Down(1),
        Move::Left(5),
        Move::Right(2),
    ];
    let result = day09a(&moves);
    assert_eq!(result, 13);
}
