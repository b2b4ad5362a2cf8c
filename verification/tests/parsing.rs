use spreadsheet::input::{
    check_err, help_input, input, is_arth, is_integer, is_scroll, is_valid_cell, is_valid_range,
};

#[test]
fn test_is_arth() {
    assert!(is_arth("A1=B1+C1"));
    assert!(is_arth("A1=5"));
    assert!(!is_arth("A1=SUM(B1:C5)"));
    assert!(!is_arth("A1=AVG(B1:C5)"));
}

#[test]
fn test_is_scroll() {
    assert!(is_scroll("scroll_to A1"));
    assert!(!is_scroll("A1=B1"));
    assert!(!is_scroll("A1=5+3"));
    assert!(!is_scroll("A1=SUM(B1:C5)"));
}

#[test]
fn test_is_integer() {
    assert!(is_integer("123"));
    assert!(is_integer("-456"));
    assert!(is_integer("+789"));
    assert!(!is_integer("12A"));
    assert!(!is_integer("A1"));
    assert!(!is_integer("12.3"));
}

#[test]
fn test_is_valid_cell() {
    assert!(is_valid_cell("A1", 26, 100));
    assert!(is_valid_cell("Z99", 26, 100));
    assert!(!is_valid_cell("A0", 26, 100));
    assert!(!is_valid_cell("Z101", 26, 100));
    assert!(!is_valid_cell("AA1", 26, 100));
    assert!(!is_valid_cell("1A", 26, 100));
    assert!(!is_valid_cell("A", 26, 100));
}

#[test]
fn test_is_valid_range() {
    assert!(is_valid_range("A1", "B2", 26, 100));
    assert!(is_valid_range("A1", "A10", 26, 100));
    assert!(!is_valid_range("B2", "A1", 26, 100));
    assert!(!is_valid_range("A10", "A1", 26, 100));
    assert!(!is_valid_range("A0", "A10", 26, 100));
    assert!(!is_valid_range("A1", "Z101", 26, 100));
}

#[test]
fn test_help_input_arithmetic() {
    let result = help_input("A1=B1+C1");
    assert_eq!(result[0], "A1");
    assert_eq!(result[1], "CCA");
    assert_eq!(result[2], "B1");
    assert_eq!(result[3], "C1");

    let result = help_input("A1=10-5");
    assert_eq!(result[0], "A1");
    assert_eq!(result[1], "VVS");
    assert_eq!(result[2], "10");
    assert_eq!(result[3], "5");

    let result = help_input("A1=B2*3");
    assert_eq!(result[0], "A1");
    assert_eq!(result[1], "CVM");
    assert_eq!(result[2], "B2");
    assert_eq!(result[3], "3");
}

#[test]
fn test_help_input_functions() {
    let result = help_input("A1=SUM(B1:C5)");
    assert_eq!(result[0], "A1");
    assert_eq!(result[1], "SUM");
    assert_eq!(result[2], "B1");
    assert_eq!(result[3], "C5");

    let result = help_input("A1=AVG(B1:C5)");
    assert_eq!(result[0], "A1");
    assert_eq!(result[1], "MEA");
    assert_eq!(result[2], "B1");
    assert_eq!(result[3], "C5");

    let result = help_input("A1=STDEV(B1:C5)");
    assert_eq!(result[0], "A1");
    assert_eq!(result[1], "STD");
    assert_eq!(result[2], "B1");
    assert_eq!(result[3], "C5");
}

#[test]
fn test_help_input_assignment() {
    let result = help_input("A1=5");
    assert_eq!(result[0], "A1");
    assert_eq!(result[1], "EQV");
    assert_eq!(result[2], "5");

    let result = help_input("A1=B2");
    assert_eq!(result[0], "A1");
    assert_eq!(result[1], "EQC");
    assert_eq!(result[2], "B2");
}

#[test]
fn test_help_input_special() {
    let result = help_input("scroll_to A1");
    assert_eq!(result[0], "A1");
    assert_eq!(result[1], "SRL");

    let result = help_input("A1=SLEEP(1000)");
    assert_eq!(result[0], "A1");
    assert_eq!(result[1], "SLV");
    assert_eq!(result[2], "1000");

    let result = help_input("A1=SLEEP(B2)");
    assert_eq!(result[0], "A1");
    assert_eq!(result[1], "SLC");
    assert_eq!(result[2], "B2");
}

#[test]
fn test_check_err() {
    let mut output = vec![
        String::from("A1"),
        String::from("EQV"),
        String::from("5"),
        String::new(),
    ];
    assert_eq!(check_err("A1=5", &output, 26, 100), "ok");

    output = vec![
        String::from("Z101"),
        String::from("EQV"),
        String::from("5"),
        String::new(),
    ];
    assert_eq!(
        check_err("Z101=5", &output, 26, 100),
        "Assigned Cell out of bounds"
    );

    output = vec![
        String::from("A1"),
        String::from("SUM"),
        String::from("B2"),
        String::from("A1"),
    ];
    assert_eq!(
        check_err("A1=SUM(B2:A1)", &output, 26, 100),
        "Invalid Range"
    );
}

#[test]
fn test_input_integration() {
    let result = input("A1=B1+C1", 26, 100);
    assert_eq!(result[0], "A1");
    assert_eq!(result[1], "CCA");
    assert_eq!(result[2], "B1");
    assert_eq!(result[3], "C1");
    assert_eq!(result[4], "ok");

    let result = input("Z101=5", 26, 100);
    assert_eq!(result[4], "Assigned Cell out of bounds");

    let result = input("A1=SUM(B2:A1)", 26, 100);
    assert_eq!(result[4], "Invalid Range");
}

#[test]
fn test_input_with_spaces() {
    let result = input("A1=B1+C1", 26, 100);
    assert_eq!(result[0], "A1");
    assert_eq!(result[1], "CCA");
    assert_eq!(result[2], "B1");
    assert_eq!(result[3], "C1");
    assert_eq!(result[4], "ok");

    let result = input("A1=5", 26, 100);
    assert_eq!(result[0], "A1");
    assert_eq!(result[1], "EQV");
    assert_eq!(result[2], "5");
    assert_eq!(result[4], "ok");
}

#[test]
fn test_min_max_functions() {
    let result = input("A1=MIN(B1:C5)", 26, 100);
    assert_eq!(result[0], "A1");
    assert_eq!(result[1], "MIN");
    assert_eq!(result[2], "B1");
    assert_eq!(result[3], "C5");
    assert_eq!(result[4], "ok");

    let result = input("A1=MAX(B1:C5)", 26, 100);
    assert_eq!(result[0], "A1");
    assert_eq!(result[1], "MAX");
    assert_eq!(result[2], "B1");
    assert_eq!(result[3], "C5");
    assert_eq!(result[4], "ok");
}

#[test]
fn test_invalid_operations() {
    let result = input("A1=INVALID(B1:C5)", 26, 100);
    assert_eq!(result[4], "Invalid Operation");

    let result = input("scroll_invalid A1", 26, 100);
    assert_eq!(result[4], "Invalid Operation");
}

#[test]
fn test_division_and_multiplication() {
    let result = input("A1=B1/C1", 26, 100);
    assert_eq!(result[0], "A1");
    assert_eq!(result[1], "CCD");
    assert_eq!(result[2], "B1");
    assert_eq!(result[3], "C1");
    assert_eq!(result[4], "ok");

    let result = input("A1=B1*5", 26, 100);
    assert_eq!(result[0], "A1");
    assert_eq!(result[1], "CVM");
    assert_eq!(result[2], "B1");
    assert_eq!(result[3], "5");
    assert_eq!(result[4], "ok");
}

#[test]
fn test_cell_out_of_bounds() {
    let result = input("scroll_to Z101", 26, 100);
    assert_eq!(result[4], "Scroll Cell out of bounds");

    let result = input("A1=Z101", 26, 100);
    assert_eq!(result[4], "Invalid Cell");

    let result = input("A1=B1+Z101", 26, 100);
    assert_eq!(result[4], "Invalid Cell");
}

#[test]
fn help_input_skips_blanks_after_equals_and_operator() {
    let result = help_input("A1=  B1+  C1");
    assert_eq!(result[0], "A1");
    assert_eq!(result[1], "CCA");
    assert_eq!(result[2], "B1");
    assert_eq!(result[3], "C1");
}

#[test]
fn help_input_keeps_a_leading_sign_in_the_first_operand() {
    let result = help_input("A1=-5+3");
    assert_eq!(result[1], "VVA");
    assert_eq!(result[2], "-5");
    assert_eq!(result[3], "3");

    let result = help_input("B2=-7");
    assert_eq!(result[1], "EQV");
    assert_eq!(result[2], "-7");
    assert_eq!(result[3], "");
}

#[test]
fn help_input_without_an_operand_has_no_code() {
    let result = help_input("A1=");
    assert_eq!(result[0], "A1");
    assert_eq!(result[1], "");
    assert_eq!(input("A1=", 26, 100)[4], "Invalid Operation");

    let result = help_input("A1=1+");
    assert_eq!(result[1], "");
    assert_eq!(result[2], "1");
    assert_eq!(result[3], "");
    assert_eq!(input("A1=1+", 26, 100)[4], "Invalid Operation");
    assert_eq!(input("A1=1+   ", 26, 100)[4], "Invalid Operation");
}

#[test]
fn help_input_function_forms() {
    let result = help_input("C3= MIN(A1:B2)");
    assert_eq!(result[0], "C3");
    assert_eq!(result[1], "MIN");
    assert_eq!(result[2], "A1");
    assert_eq!(result[3], "B2");

    // a function without a colon has its whole argument as first operand
    let result = help_input("A1=SUM(B1)");
    assert_eq!(result[1], "SUM");
    assert_eq!(result[2], "B1)");
    assert_eq!(result[3], "");

    // the name SL is completed like SLEEP, but its operand runs to the colon
    let result = help_input("A1=SL(5)");
    assert_eq!(result[1], "SLC");
    assert_eq!(result[2], "5)");

    let result = help_input("A1=SLEEP(-3)");
    assert_eq!(result[1], "SLV");
    assert_eq!(result[2], "-3");
}

#[test]
fn help_input_scroll_without_blank_has_no_target() {
    let result = help_input("scroll_to");
    assert_eq!(result[0], "");
    assert_eq!(result[1], "SRL");
    assert_eq!(input("scroll_to", 26, 100)[4], "Scroll Cell out of bounds");
    assert_eq!(input("scroll_to B7", 26, 100)[4], "ok");
}

#[test]
fn is_integer_allows_any_number_of_signs() {
    assert!(is_integer(""));
    assert!(is_integer("-"));
    assert!(is_integer("+-+5"));
    assert!(!is_integer("5-"));
    assert!(!is_integer("- 5"));
}

#[test]
fn is_valid_cell_shapes() {
    // the first character after the capitals may be anything
    assert!(is_valid_cell("A+5", 26, 100));
    assert!(is_valid_cell("Ab5", 26, 100));
    assert!(!is_valid_cell("A-5", 26, 100));
    assert!(!is_valid_cell("A?5", 26, 100));
    assert!(!is_valid_cell("a1", 26, 100));
    assert!(!is_valid_cell("AB", 26, 100));
    assert!(!is_valid_cell("A1x", 26, 100));
    assert!(!is_valid_cell("", 26, 100));
    // three letters at most fit any grid of 18278 columns
    assert!(is_valid_cell("ZZZ999", 18278, 999));
    assert!(!is_valid_cell("ZZZ999", 18277, 999));
    assert!(!is_valid_cell("ZZZ999", 18278, 998));
    // very long labels lie in no grid
    assert!(!is_valid_cell("ZZZZZZZZZZZZZZZZZZZZ1", i32::MAX, i32::MAX));
    assert!(!is_valid_cell("A99999999999999999999", i32::MAX, i32::MAX));
}

#[test]
fn is_valid_range_needs_no_shape() {
    // the range check reads the labels as they are
    assert!(is_valid_range("A+1", "B2", 26, 100));
    assert!(is_valid_range("C3", "C3", 26, 100));
    assert!(!is_valid_range("", "B2", 26, 100));
    assert!(!is_valid_range("A1", "B-2", 26, 100));
    assert!(!is_valid_range("ZZZZZZZZZZZZZZZZZZZZ1", "ZZZZZZZZZZZZZZZZZZZZ2", i32::MAX, i32::MAX));
}

#[test]
fn check_err_each_message() {
    assert_eq!(input("A1=5", 26, 100)[4], "ok");
    assert_eq!(input("A1=FOO(B1:C5)", 26, 100)[4], "Invalid Operation");
    assert_eq!(input("A1=B1%C1", 26, 100)[4], "Invalid Cell");
    assert_eq!(input("scroll_to AA1", 26, 100)[4], "Scroll Cell out of bounds");
    assert_eq!(input("AA1=5", 26, 100)[4], "Assigned Cell out of bounds");
    assert_eq!(input("A1=SLEEP(Z101)", 26, 100)[4], "Invalid Cell");
    assert_eq!(input("A1=Z101*2", 26, 100)[4], "Invalid Cell");
    assert_eq!(input("A1=MAX(C5:B1)", 26, 100)[4], "Invalid Range");
    assert_eq!(input("A1=SLEEP(3)", 26, 100)[4], "ok");
    assert_eq!(input("A1=SLEEP(B3)", 26, 100)[4], "ok");
    // an unknown code of three bytes is judged after the target
    assert_eq!(input("A1=ABC(B1:C5)", 26, 100)[4], "Invalid Operation");
    assert_eq!(input("Z101=ABC(B1:C5)", 26, 100)[4], "Assigned Cell out of bounds");
    assert_eq!(input("A1=\u{e9}a(B1:C5)", 26, 100)[4], "Invalid Operation");
    assert_eq!(input("Z101=\u{e9}a(B1:C5)", 26, 100)[4], "Assigned Cell out of bounds");
    // a code of three characters in four bytes is judged before it
    assert_eq!(input("Z101=SU\u{e9}(B1:C5)", 26, 100)[4], "Invalid Operation");
    assert_eq!(input("Z101=SUMS(B1:C5)", 26, 100)[4], "Invalid Operation");
}
