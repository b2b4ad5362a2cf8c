use spreadsheet::evaluate::val_update;
use spreadsheet::operation::Ops;

#[test]
fn test_calc_basic_arithmetic() {
    let mut database = vec![0, 10, 5, 0]; // Index 0 unused, A1=10, B1=5, C1=0
    let mut err = vec![false, false, false, false];
    let opers = vec![
        Ops::new("", -1, -1), // Unused
        Ops::new("EQV", 10, -1), // A1 = 10
        Ops::new("EQV", 5, -1), // B1 = 5
        Ops::new("VVA", 7, 3), // C1 = 7 + 3
    ];

    spreadsheet::evaluate::calc(3, &mut database, &opers, 3, &mut err);
    assert_eq!(database[3], 10); // 7 + 3 = 10
    assert!(!err[3]);
}

#[test]
fn test_calc_all_arithmetics() {
    let mut database = vec![0, 10, 5, 0, 0, 0, 0, 0, 0]; // Index 0 unused, A1=10, B1=5, rest are results
    let mut err = vec![false; 9];
    let opers = vec![
        Ops::new("", -1, -1), // Unused
        Ops::new("EQV", 10, -1), // A1 = 10
        Ops::new("EQV", 5, -1), // B1 = 5
        Ops::new("CCA", 1, 2), // C1 = A1 + B1 = 15
        Ops::new("CCS", 1, 2), // D1 = A1 - B1 = 5
        Ops::new("CCM", 1, 2), // E1 = A1 * B1 = 50
        Ops::new("CCD", 1, 2), // F1 = A1 / B1 = 2
        Ops::new("VVM", 3, 4), // G1 = 3 * 4 = 12
        Ops::new("CVS", 1, 2), // H1 = A1 - 2 = 8
    ];

    for i in 3..=8 {
        spreadsheet::evaluate::calc(i, &mut database, &opers, 3, &mut err);
    }

    assert_eq!(database[3], 15); // CCA: A1 + B1 = 10 + 5 = 15
    assert_eq!(database[4], 5); // CCS: A1 - B1 = 10 - 5 = 5
    assert_eq!(database[5], 50); // CCM: A1 * B1 = 10 * 5 = 50
    assert_eq!(database[6], 2); // CCD: A1 / B1 = 10 / 5 = 2
    assert_eq!(database[7], 12); // VVM: 3 * 4 = 12
    assert_eq!(database[8], 8); // CVS: A1 - 2 = 10 - 2 = 8
}

#[test]
fn test_calc_specialized_operations() {
    let mut database = vec![0, 10, 20, 30, 40, 0, 0]; // Index 0 unused, A1=10, B1=20, C1=30, D1=40
    let mut err = vec![false; 7];
    let opers = vec![
        Ops::new("", -1, -1), // Unused
        Ops::new("EQV", 10, -1), // A1 = 10
        Ops::new("EQV", 20, -1), // B1 = 20
        Ops::new("EQV", 30, -1), // C1 = 30
        Ops::new("EQV", 40, -1), // D1 = 40
        Ops::new("EQC", 3, -1), // E1 = C1 = 30
        Ops::new("SLC", 1, -1), // F1 = sleep(A1) then A1 = 10
    ];

    spreadsheet::evaluate::calc(5, &mut database, &opers, 4, &mut err); // EQC
    spreadsheet::evaluate::calc(6, &mut database, &opers, 4, &mut err); // SLC (might sleep for 10 seconds)

    assert_eq!(database[5], 30); // EQC: E1 = C1 = 30
    assert_eq!(database[6], 10); // SLC: F1 = A1 = 10
}

#[test]
fn test_calc_value_combinations() {
    let mut database = vec![0, 10, 5, 0, 0, 0, 0]; // Index 0 unused
    let mut err = vec![false; 7];
    let opers = vec![
        Ops::new("", -1, -1), // Unused
        Ops::new("EQV", 10, -1), // A1 = 10
        Ops::new("EQV", 5, -1), // B1 = 5
        Ops::new("VCA", 7, 1), // C1 = 7 + A1 = 17
        Ops::new("CVA", 2, 8), // D1 = B1 + 8 = 13
        Ops::new("VCS", 15, 2), // E1 = 15 - B1 = 10
        Ops::new("VCD", 100, 1), // F1 = 100 / A1 = 10
    ];

    for i in 3..=6 {
        spreadsheet::evaluate::calc(i, &mut database, &opers, 3, &mut err);
    }

    assert_eq!(database[3], 17); // VCA: 7 + A1 = 7 + 10 = 17
    assert_eq!(database[4], 13); // CVA: B1 + 8 = 5 + 8 = 13
    assert_eq!(database[5], 10); // VCS: 15 - B1 = 15 - 5 = 10
    assert_eq!(database[6], 10); // VCD: 100 / A1 = 100 / 10 = 10
}

#[test]
fn test_calc_statistical_functions() {
    // Set up a row of cells with values 10, 20, 30, 40, 50
    let mut database = vec![0, 10, 20, 30, 40, 50, 0, 0, 0, 0, 0]; // Index 0 unused
    let mut err = vec![false; 11];
    let len_h = 5; // Width of 5 cells

    let opers = vec![
        Ops::new("", -1, -1), // Unused
        Ops::new("EQV", 10, -1), // A1 = 10
        Ops::new("EQV", 20, -1), // B1 = 20
        Ops::new("EQV", 30, -1), // C1 = 30
        Ops::new("EQV", 40, -1), // D1 = 40
        Ops::new("EQV", 50, -1), // E1 = 50
        Ops::new("MIN", 1, 5), // F1 = MIN(A1:E1) = 10
        Ops::new("MAX", 1, 5), // G1 = MAX(A1:E1) = 50
        Ops::new("SUM", 1, 5), // H1 = SUM(A1:E1) = 150
        Ops::new("MEA", 1, 5), // I1 = MEA(A1:E1) = 30
        Ops::new("STD", 1, 5), // J1 = STD(A1:E1)
    ];

    // Calculate statistical operations
    for i in 6..=10 {
        spreadsheet::evaluate::calc(i, &mut database, &opers, len_h, &mut err);
    }

    assert_eq!(database[6], 10); // MIN(A1:E1) = 10
    assert_eq!(database[7], 50); // MAX(A1:E1) = 50
    assert_eq!(database[8], 150); // SUM(A1:E1) = 150
    assert_eq!(database[9], 30); // MEA(A1:E1) = 30

    // STD calculation should be approximately √((10-30)²+(20-30)²+(30-30)²+(40-30)²+(50-30)²)/5 = √500/5 ≈ 14.14
    let expected_std = ((400.0 + 100.0 + 0.0 + 100.0 + 400.0) / 5.0_f32).sqrt() as i32;
    assert_eq!(database[10], expected_std); // STD(A1:E1) ≈ 14.14 -> 15 (rounded)
}

#[test]
fn test_sleep_operations() {
    let mut database = vec![0, 0, 0];
    let mut err = vec![false; 3];
    let opers = vec![
        Ops::new("", -1, -1), // Unused
        Ops::new("SLV", 0, -1), // A1 = Sleep 0s, value 0
        Ops::new("SLV", 1, -1), // B1 = Sleep 1s, value 1
    ];

    // The delay is handed back to the caller, who blocks for it
    let delay_a1 = spreadsheet::evaluate::calc(1, &mut database, &opers, 2, &mut err);
    let delay_b1 = spreadsheet::evaluate::calc(2, &mut database, &opers, 2, &mut err);

    assert_eq!(database[1], 0);
    assert_eq!(database[2], 1);
    assert_eq!(delay_a1, 0); // A1 asks for no delay
    assert_eq!(delay_b1, 1); // B1 asks for 1 second
}

#[test]
fn test_error_handling_in_operations() {
    let mut database = vec![0, 10, 0, 0, 0, 0];
    let mut err = vec![false, false, false, false, false, false];
    let opers = vec![
        Ops::new("", -1, -1), // Unused
        Ops::new("EQV", 10, -1), // A1 = 10
        Ops::new("EQV", 0, -1), // B1 = 0
        Ops::new("CCD", 1, 2), // C1 = A1 / B1 = 10 / 0 (error)
        Ops::new("VVD", 20, 0), // D1 = 20 / 0 (error)
        Ops::new("CVA", 3, 5), // E1 = C1 + 5 (propagated error)
    ];

    for i in 3..=5 {
        spreadsheet::evaluate::calc(i, &mut database, &opers, 3, &mut err);
    }

    assert!(err[3]); // C1 has error (division by zero)
    assert!(err[4]); // D1 has error (direct division by zero)
    assert!(err[5]); // E1 has error (derived from C1's error)
}

#[test]
fn test_val_update_complex_dependencies() {
    // Testing a more complex dependency chain: A1 -> B1 -> C1 -> D1
    let mut database = vec![0, 0, 0, 0, 0]; // Index 0 unused, cells 1-4
    let mut err = vec![false, false, false, false, false];
    let opers = vec![
        Ops::new("", -1, -1), // Unused
        Ops::new("EQV", 5, -1), // A1 = 5
        Ops::new("CVM", 1, 2), // B1 = A1 * 2 = 10
        Ops::new("CVA", 2, 5), // C1 = B1 + 5 = 15
        Ops::new("CCM", 3, 1), // D1 = C1 * A1 = 15 * 5 = 75
    ];

    // Topo order: 1, 2, 3, 4 (A1, B1, C1, D1)
    let topo_arr = vec![4, 1, 2, 3, 4]; // First element is count, then indices in order

    val_update(&topo_arr, &mut database, &opers, 4, &mut err);

    assert_eq!(database[1], 5); // A1 = 5
    assert_eq!(database[2], 10); // B1 = 5 * 2 = 10
    assert_eq!(database[3], 15); // C1 = 10 + 5 = 15
    assert_eq!(database[4], 75); // D1 = 15 * 5 = 75
}

#[test]
fn test_error_propagation() {
    let mut database = vec![0, 0, 0, 0];
    let mut err = vec![false, true, false, false]; // A1 has an error
    let opers = vec![
        Ops::new("", -1, -1),
        Ops::new("EQV", 10, -1),
        Ops::new("EQV", 5, -1),
        Ops::new("CCA", 1, 2), // C1 = A1 + B1, A1 has error
    ];

    spreadsheet::evaluate::calc(3, &mut database, &opers, 3, &mut err);
    assert!(err[3]); // Error propagates
}

#[test]
fn test_division_by_zero() {
    let mut database = vec![0, 10, 0, 0]; // A1=10, B1=0
    let mut err = vec![false, false, false, false];
    let opers = vec![
        Ops::new("", -1, -1),
        Ops::new("EQV", 10, -1),
        Ops::new("EQV", 0, -1),
        Ops::new("CCD", 1, 2), // C1 = A1 / B1
    ];

    spreadsheet::evaluate::calc(3, &mut database, &opers, 3, &mut err);
    assert!(err[3]); // Division by zero causes error
}

#[test]
fn test_val_update() {
    let mut database = vec![0, 0, 0, 0, 0]; // Index 0 unused, cells 1-4
    let mut err = vec![false, false, false, false, false];
    let opers = vec![
        Ops::new("", -1, -1), // Unused
        Ops::new("EQV", 10, -1), // A1 = 10
        Ops::new("EQV", 5, -1), // B1 = 5
        Ops::new("CCA", 1, 2), // C1 = A1 + B1
        Ops::new("CCM", 3, 1), // D1 = C1 * A1
    ];

    // Topo order: 1, 2, 3, 4 (A1, B1, C1, D1)
    let topo_arr = vec![4, 1, 2, 3, 4]; // First element is count, then indices in order

    val_update(&topo_arr, &mut database, &opers, 4, &mut err);

    assert_eq!(database[1], 10); // A1 = 10
    assert_eq!(database[2], 5); // B1 = 5
    assert_eq!(database[3], 15); // C1 = 10 + 5 = 15
    assert_eq!(database[4], 150); // D1 = 15 * 10 = 150
}

