use spreadsheet::engine::cell_update;
use spreadsheet::operation::Ops;

#[test]
fn test_cell_update_simple() {
    let mut database = vec![0, 0, 0, 0];
    let mut err = vec![false, false, false, false];
    let mut opers = vec![
        Ops::empty(),
        Ops::empty(),
        Ops::empty(),
        Ops::empty(),
    ];
    let mut sensi = vec![Vec::new(), Vec::new(), Vec::new(), Vec::new()];
    let mut indegree = vec![0, 0, 0, 0];

    // Set A1 to 10
    let inp_arr = vec![
        String::from("A1"),  // Cell
        String::from("EQV"), // Operation
        String::from("10"),  // Value 1
        String::from("0"),   // Value 2
    ];

    let result = cell_update(
        &inp_arr,
        &mut database,
        &mut sensi,
        &mut opers,
        2,
        &mut indegree,
        &mut err,
    );

    assert_eq!(result.status, 1); // Update successful
    assert_eq!(database[1], 10); // A1 = 10
    assert!(!err[1]); // No error
}

#[test]
fn test_cell_update_with_dependencies() {
    let mut database = vec![0, 0, 0, 0];
    let mut err = vec![false, false, false, false];
    let mut opers = vec![
        Ops::empty(),
        Ops::empty(),
        Ops::empty(),
        Ops::empty(),
    ];
    let mut sensi = vec![Vec::new(), Vec::new(), Vec::new(), Vec::new()];
    let mut indegree = vec![0, 0, 0, 0];

    // Set A1 to 10
    let inp_arr1 = vec![
        String::from("A1"),
        String::from("EQV"),
        String::from("10"),
        String::from("0"),
    ];

    // Set B1 to 5
    let inp_arr2 = vec![
        String::from("B1"),
        String::from("EQV"),
        String::from("5"),
        String::from("0"),
    ];

    // Set C1 to A1 + B1
    let inp_arr3 = vec![
        String::from("C1"),
        String::from("CCA"),
        String::from("A1"),
        String::from("B1"),
    ];

    cell_update(
        &inp_arr1,
        &mut database,
        &mut sensi,
        &mut opers,
        3,
        &mut indegree,
        &mut err,
    );
    cell_update(
        &inp_arr2,
        &mut database,
        &mut sensi,
        &mut opers,
        3,
        &mut indegree,
        &mut err,
    );
    let result = cell_update(
        &inp_arr3,
        &mut database,
        &mut sensi,
        &mut opers,
        3,
        &mut indegree,
        &mut err,
    );

    assert_eq!(result.status, 1); // Update successful
    assert_eq!(database[3], 15); // C1 = A1 + B1 = 10 + 5 = 15

    // Now update A1 and check if C1 updates
    let inp_arr4 = vec![
        String::from("A1"),
        String::from("EQV"),
        String::from("20"),
        String::from("0"),
    ];

    cell_update(
        &inp_arr4,
        &mut database,
        &mut sensi,
        &mut opers,
        3,
        &mut indegree,
        &mut err,
    );
    assert_eq!(database[1], 20); // A1 = 20
    assert_eq!(database[3], 25); // C1 = A1 + B1 = 20 + 5 = 25
}

#[test]
fn test_cell_update_cycle_detection() {
    let mut database = vec![0, 0, 0, 0];
    let mut err = vec![false, false, false, false];
    let mut opers = vec![
        Ops::empty(),
        Ops::empty(),
        Ops::empty(),
        Ops::empty(),
    ];
    let mut sensi = vec![Vec::new(), Vec::new(), Vec::new(), Vec::new()];
    let mut indegree = vec![0, 0, 0, 0];

    // Set A1 to B1 + 1
    let inp_arr1 = vec![
        String::from("A1"),
        String::from("CVA"),
        String::from("B1"),
        String::from("1"),
    ];

    // Set B1 to A1 + 1 (creates cycle)
    let inp_arr2 = vec![
        String::from("B1"),
        String::from("CVA"),
        String::from("A1"),
        String::from("1"),
    ];

    let result1 = cell_update(
        &inp_arr1,
        &mut database,
        &mut sensi,
        &mut opers,
        3,
        &mut indegree,
        &mut err,
    );
    let result2 = cell_update(
        &inp_arr2,
        &mut database,
        &mut sensi,
        &mut opers,
        3,
        &mut indegree,
        &mut err,
    );

    assert_eq!(result1.status, 1); // First update is fine
    assert_eq!(result2.status, 0); // Second update creates cycle, should return 0
}

#[test]
fn test_range_operations() {
    let mut database = vec![0, 1, 2, 3, 4, 5, 6, 7, 8, 9]; // Cells 1-9 with values 1-9
    let mut err = vec![false; 10];
    let mut opers = vec![
        Ops::empty();
        10
    ];
    let mut sensi = vec![Vec::new(); 10];
    let mut indegree = vec![0; 10];

    // Initialize cells with values
    for i in 1..9 {
        let inp_arr = vec![
            format!("A{}", i),
            String::from("EQV"),
            format!("{}", i),
            String::from("0"),
        ];
        cell_update(
            &inp_arr,
            &mut database,
            &mut sensi,
            &mut opers,
            1,
            &mut indegree,
            &mut err,
        );
    }

    // Set A9 to SUM of range A1:A8
    let inp_arr = vec![
        String::from("A9"),
        String::from("SUM"),
        String::from("A1"),
        String::from("A8"),
    ];

    let result = cell_update(
        &inp_arr,
        &mut database,
        &mut sensi,
        &mut opers,
        1,
        &mut indegree,
        &mut err,
    );

    assert_eq!(result.status, 1); // Update successful
    assert_eq!(database[9], 36);

    // Change A1 and check if A9 updates
    let inp_arr_update = vec![
        String::from("A1"),
        String::from("EQV"),
        String::from("10"),
        String::from("0"),
    ];

    cell_update(
        &inp_arr_update,
        &mut database,
        &mut sensi,
        &mut opers,
        1,
        &mut indegree,
        &mut err,
    );
    assert_eq!(database[1], 10); // A1 = 10
    assert_eq!(database[9], 45);

    // Update A9 to sum only A1:A5 instead of A1:A8
    let inp_arr_range_update = vec![
        String::from("A9"),
        String::from("SUM"),
        String::from("A1"),
        String::from("A5"),
    ];

    cell_update(
        &inp_arr_range_update,
        &mut database,
        &mut sensi,
        &mut opers,
        1,
        &mut indegree,
        &mut err,
    );
    assert_eq!(database[9], 24); // Sum of (10+2+3+4+5) = 24

    // Make sure updating a cell outside the new range doesn't affect the sum
    let inp_arr_out_of_range = vec![
        String::from("A8"),
        String::from("EQV"),
        String::from("100"),
        String::from("0"),
    ];

    cell_update(
        &inp_arr_out_of_range,
        &mut database,
        &mut sensi,
        &mut opers,
        1,
        &mut indegree,
        &mut err,
    );
    assert_eq!(database[8], 100); // A8 = 100
    assert_eq!(database[9], 24); // Sum remains unchanged as A8 is outside the range
}

#[test]
fn test_complex_cell_updates() {
    let len_h = 10;
    let len_v = 10;
    let mut database = vec![0; (len_h * len_v + 1) as usize];
    let mut err = vec![false; (len_h * len_v + 1) as usize];
    let mut opers = vec![
        Ops::empty();
        (len_h * len_v + 1) as usize
    ];
    let mut indegree = vec![0; (len_h * len_v + 1) as usize];
    let mut sensi = vec![Vec::<i32>::new(); (len_h * len_v + 1) as usize];

    let mut status;

    // Create a series of complex updates to test the spreadsheet functionality
    let test_inputs = [
        "A1=SUM(B1:B4)",
        "A1=MIN(B2:B8)",
        "A1=1",
        "A1=MAX(B2:B8)",
        "A1=B2",
    ];

    // Process each test input
    for (i, input) in test_inputs.iter().enumerate() {
        println!("Processing input {}: {}", i + 1, input);

        let input = input.trim_end().to_string();

        let out = spreadsheet::input::input(&input, len_h, len_v);
        status = out[4].clone();
        if status == "ok" {
            cell_update(
                &out,
                &mut database,
                &mut sensi,
                &mut opers,
                len_h,
                &mut indegree,
                &mut err,
            );
        }
    }
    assert_eq!(database[1], 0); // A1 = 0
}

#[test]
fn test_complex_cell_updates_cyclic() {
    let len_h = 10;
    let len_v = 10;
    let mut database = vec![0; (len_h * len_v + 1) as usize];
    let mut err = vec![false; (len_h * len_v + 1) as usize];
    let mut opers = vec![
        Ops::empty();
        (len_h * len_v + 1) as usize
    ];
    let mut indegree = vec![0; (len_h * len_v + 1) as usize];
    let mut sensi = vec![Vec::<i32>::new(); (len_h * len_v + 1) as usize];

    let mut suc = 0;
    let mut status;

    // Create a series of complex updates to test the spreadsheet functionality
    let test_inputs = ["A1=A2", "A1=MAX(B2:B8)", "A1=A2", "A1=MIN(B2:B8)", "A1=A1"];

    // Process each test input
    for (i, input) in test_inputs.iter().enumerate() {
        println!("Processing input {}: {}", i + 1, input);

        let input = input.trim_end().to_string();

        let out = spreadsheet::input::input(&input, len_h, len_v);
        status = out[4].clone();
        if status == "ok" {
            suc = cell_update(
                &out,
                &mut database,
                &mut sensi,
                &mut opers,
                len_h,
                &mut indegree,
                &mut err,
            )
                .status;
        }
    }
    assert!(suc == 0);
}

#[test]
fn test_complex_range_updates_cyclic() {
    let len_h = 10;
    let len_v = 10;
    let mut database = vec![0; (len_h * len_v + 1) as usize];
    let mut err = vec![false; (len_h * len_v + 1) as usize];
    let mut opers = vec![
        Ops::empty();
        (len_h * len_v + 1) as usize
    ];
    let mut indegree = vec![0; (len_h * len_v + 1) as usize];
    let mut sensi = vec![Vec::<i32>::new(); (len_h * len_v + 1) as usize];

    let mut suc = 0;
    let mut status;

    // Create a series of complex updates to test the spreadsheet functionality
    let test_inputs = ["A1=MAX(B2:B8)", "A1=MAX(A1:B5)"];

    // Process each test input
    for (i, input) in test_inputs.iter().enumerate() {
        println!("Processing input {}: {}", i + 1, input);

        let input = input.trim_end().to_string();

        let out = spreadsheet::input::input(&input, len_h, len_v);
        status = out[4].clone();
        if status == "ok" {
            suc = cell_update(
                &out,
                &mut database,
                &mut sensi,
                &mut opers,
                len_h,
                &mut indegree,
                &mut err,
            )
                .status;
        }
    }
    assert!(suc == 0);
}
