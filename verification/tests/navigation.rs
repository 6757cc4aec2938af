use queens::model::navigation::{marked_down, marked_left, marked_right, marked_up};

#[test]
fn step_right_wraps_within_the_row() {
    assert_eq!(marked_right(5, 10, false), 6);
    assert_eq!(marked_right(9, 10, false), 0);
    assert_eq!(marked_right(19, 10, false), 10);
}

#[test]
fn jump_right_goes_to_the_row_edge() {
    assert_eq!(marked_right(3, 10, true), 9);
    assert_eq!(marked_right(9, 10, true), 9);
    assert_eq!(marked_right(24, 10, true), 29);
}

#[test]
fn step_left_wraps_within_the_row() {
    assert_eq!(marked_left(5, 10, false), 4);
    assert_eq!(marked_left(0, 10, false), 9);
    assert_eq!(marked_left(10, 10, false), 19);
}

#[test]
fn jump_left_goes_to_the_row_edge() {
    assert_eq!(marked_left(7, 10, true), 0);
    assert_eq!(marked_left(0, 10, true), 0);
    assert_eq!(marked_left(24, 10, true), 20);
}

#[test]
fn step_down_wraps_within_the_column() {
    assert_eq!(marked_down(5, 10, false), 15);
    assert_eq!(marked_down(95, 10, false), 5);
}

#[test]
fn jump_down_goes_to_the_column_edge() {
    assert_eq!(marked_down(5, 10, true), 95);
    assert_eq!(marked_down(95, 10, true), 95);
}

#[test]
fn step_up_wraps_within_the_column() {
    assert_eq!(marked_up(15, 10, false), 5);
    assert_eq!(marked_up(5, 10, false), 95);
}

#[test]
fn jump_up_goes_to_the_column_edge() {
    assert_eq!(marked_up(15, 10, true), 5);
    assert_eq!(marked_up(95, 10, true), 5);
    assert_eq!(marked_up(5, 10, true), 5);
}

#[test]
fn movement_follows_the_board_size() {
    // a 5-by-5 board wraps at its own edges
    assert_eq!(marked_right(4, 5, false), 0);
    assert_eq!(marked_down(22, 5, false), 2);
    assert_eq!(marked_up(2, 5, false), 22);
    assert_eq!(marked_left(20, 5, true), 20);
}
