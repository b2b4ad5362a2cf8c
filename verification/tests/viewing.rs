use spreadsheet::operations::values_in;
use spreadsheet::viewport::{
    bring_into_view, last_shown, page_back, page_forth, page_forth_within, step_back, step_forth,
};

#[test]
fn pages_back_and_forth() {
    assert_eq!(page_back(25), 15);
    assert_eq!(page_back(11), 1);
    assert_eq!(page_back(12), 2);
    assert_eq!(page_back(5), 1);
    assert_eq!(page_back(-5), 1);
    // the terminal jumps to the last full window only from its last page
    assert_eq!(page_forth(1, 100), 11);
    assert_eq!(page_forth(85, 100), 95);
    assert_eq!(page_forth(89, 100), 99);
    assert_eq!(page_forth(90, 100), 91);
    assert_eq!(page_forth(95, 100), 91);
    assert_eq!(page_forth(1, 10), 1);
    assert_eq!(page_forth(1, 5), -4);
    // the buttons never go beyond the last full window
    assert_eq!(page_forth_within(1, 100), 11);
    assert_eq!(page_forth_within(81, 100), 91);
    assert_eq!(page_forth_within(85, 100), 91);
    assert_eq!(page_forth_within(91, 100), 91);
    assert_eq!(page_forth_within(1, 5), -4);
}

#[test]
fn steps_back_and_forth() {
    assert_eq!(step_back(2), 1);
    assert_eq!(step_back(1), 1);
    assert_eq!(step_back(0), 0);
    assert_eq!(step_forth(1, 100), 2);
    assert_eq!(step_forth(90, 100), 91);
    assert_eq!(step_forth(91, 100), 91);
    assert_eq!(step_forth(1, 10), 1);
}

#[test]
fn window_follows_the_cell() {
    assert_eq!(bring_into_view(20, 20), 20);
    assert_eq!(bring_into_view(20, 29), 20);
    assert_eq!(bring_into_view(20, 30), 21);
    assert_eq!(bring_into_view(20, 45), 36);
    assert_eq!(bring_into_view(20, 19), 19);
    assert_eq!(bring_into_view(20, 1), 1);
    assert_eq!(last_shown(1, 100), 10);
    assert_eq!(last_shown(91, 100), 100);
    assert_eq!(last_shown(95, 100), 100);
    assert_eq!(last_shown(1, 4), 4);
}

#[test]
fn window_arithmetic_wraps() {
    assert_eq!(page_back(i32::MIN), i32::MAX - 9);
    assert_eq!(page_forth(i32::MAX, i32::MAX), i32::MIN + 9);
    assert_eq!(page_forth(i32::MAX, i32::MIN), i32::MAX - 8);
    assert_eq!(last_shown(i32::MAX, 7), i32::MIN + 8);
    assert_eq!(step_forth(i32::MIN, i32::MIN), i32::MIN + 1);
}

#[test]
fn values_of_a_rectangle_come_column_after_column() {
    // a grid of 4 columns and 3 rows
    let data = vec![0, 3, -1, 4, 1, -5, 9, 2, 6, 5, 3, -5, 8];
    assert_eq!(values_in(2, 11, &data, 4), vec![-1, 9, 3, 4, 2, -5]);
    assert_eq!(values_in(1, 12, &data, 4), vec![3, -5, 5, -1, 9, 3, 4, 2, -5, 1, 6, 8]);
    assert_eq!(values_in(4, 12, &data, 4), vec![1, 6, 8]);
    assert_eq!(values_in(5, 8, &data, 4), vec![-5, 9, 2, 6]);
    assert_eq!(values_in(7, 7, &data, 4), vec![2]);
    assert_eq!(values_in(3, 2, &data, 4), Vec::<i32>::new());
    assert_eq!(values_in(5, 2, &data, 4), Vec::<i32>::new());
}
