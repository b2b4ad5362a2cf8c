use spreadsheet::address::{
    cell_to_ind, cell_to_int, coordinate_of, get_label, int_to_ind, linear_index_of, max, min,
    shift_char,
};

#[test]
fn test_max() {
    assert_eq!(max(5, 3), 5);
    assert_eq!(max(-5, -3), -3);
    assert_eq!(max(0, 0), 0);
}

#[test]
fn test_cell_to_int() {
    assert_eq!(cell_to_int("A1"), 1001);
    assert_eq!(cell_to_int("B5"), 2005);
    assert_eq!(cell_to_int("Z10"), 26010);
    assert_eq!(cell_to_int("AA1"), 27001);
}

#[test]
fn test_int_to_ind() {
    assert_eq!(int_to_ind(1001, 10), 1); // A1 in 10x10 grid
    assert_eq!(int_to_ind(2005, 10), 2 + (5 - 1) * 10); // B5 in 10x10 grid
    assert_eq!(int_to_ind(3003, 5), 3 + (3 - 1) * 5); // C3 in 5x5 grid
}

#[test]
fn test_cell_to_ind() {
    assert_eq!(cell_to_ind("A1", 10), 1);
    assert_eq!(cell_to_ind("B5", 10), 2 + (5 - 1) * 10);
    assert_eq!(cell_to_ind("C3", 5), 3 + (3 - 1) * 5);
}

#[test]
fn test_shift_char() {
    // Basic shift cases
    assert_eq!(shift_char('A', 0), 'A');
    assert_eq!(shift_char('A', 1), 'B');
    assert_eq!(shift_char('A', 25), 'Z');

    // Edge cases
    assert_eq!(shift_char('Z', 1), '['); // ASCII value after 'Z'
    assert_eq!(shift_char('A', -1), '@'); // ASCII value before 'A'
}

#[test]
fn test_get_label_single_letter() {
    // Single letter cases (1-26)
    assert_eq!(get_label(1), "A");
    assert_eq!(get_label(2), "B");
    assert_eq!(get_label(26), "Z");
}

#[test]
fn test_get_label_double_letter() {
    // Double letter cases (27-702)
    assert_eq!(get_label(27), "AA");
    assert_eq!(get_label(28), "AB");
    assert_eq!(get_label(52), "AZ");
    assert_eq!(get_label(53), "BA");
    assert_eq!(get_label(702), "ZZ");
}

#[test]
fn test_get_label_triple_letter() {
    // Triple letter cases (703-18277)
    assert_eq!(get_label(703), "AAA");
    assert_eq!(get_label(704), "AAB");
    assert_eq!(get_label(728), "AAZ");
    assert_eq!(get_label(729), "ABA");
    assert_eq!(get_label(18278), "ZZZ");
}

#[test]
fn test_get_label_boundary_cases() {
    // Test boundary cases between different label lengths
    assert_eq!(get_label(26), "Z");
    assert_eq!(get_label(27), "AA");
    assert_eq!(get_label(702), "ZZ");
    assert_eq!(get_label(703), "AAA");
}

#[test]
fn get_label_outside_three_letters_is_empty() {
    assert_eq!(get_label(0), "");
    assert_eq!(get_label(-7), "");
    assert_eq!(get_label(18279), "");
    assert_eq!(get_label(i32::MIN), "");
    assert_eq!(get_label(i32::MAX), "");
}

#[test]
fn min_of_two() {
    assert_eq!(min(5, 3), 3);
    assert_eq!(min(-5, -3), -5);
    assert_eq!(min(0, 0), 0);
}

#[test]
fn coordinates_round_trip_over_a_grid() {
    for columns in 1..=7 {
        for row in 1..=9 {
            for col in 1..=columns {
                let index = linear_index_of(col, row, columns);
                assert_eq!(index, col + (row - 1) * columns);
                assert_eq!(coordinate_of(index, columns), (col, row));
            }
        }
    }
}

#[test]
fn coordinate_of_last_column() {
    // the last column of a row is where the index is a multiple of the width
    assert_eq!(coordinate_of(10, 10), (10, 1));
    assert_eq!(coordinate_of(20, 10), (10, 2));
    assert_eq!(coordinate_of(11, 10), (1, 2));
    assert_eq!(coordinate_of(1, 1), (1, 1));
    assert_eq!(coordinate_of(5, 1), (1, 5));
}

#[test]
fn labels_name_their_column() {
    for a in [1, 2, 26, 27, 52, 53, 702, 703, 728, 729, 18278] {
        let label = format!("{}1", get_label(a));
        assert_eq!(cell_to_int(&label), a * 1000 + 1);
    }
}

#[test]
fn cell_to_int_quirks() {
    // no number after the letters: row 0
    assert_eq!(cell_to_int("A"), 1000);
    assert_eq!(cell_to_int(""), 0);
    assert_eq!(cell_to_int("7"), 7);
    // a sign is read as part of the number
    assert_eq!(cell_to_int("A+5"), 1005);
    assert_eq!(cell_to_int("B-5"), 1995);
    // small letters end the column but not the run of letters
    assert_eq!(cell_to_int("Ab5"), 1005);
    assert_eq!(cell_to_int("A?5"), 1000);
    // a number too large for 32 bits counts as no number
    assert_eq!(cell_to_int("A99999999999"), 1000);
    assert_eq!(cell_to_int("ZZZ999"), 18278999);
}

#[test]
fn int_to_ind_of_zero_is_before_the_grid() {
    assert_eq!(int_to_ind(0, 10), -10);
    assert_eq!(cell_to_ind("", 10), -10);
    assert_eq!(int_to_ind(26010, 26), 26 + 9 * 26);
}
