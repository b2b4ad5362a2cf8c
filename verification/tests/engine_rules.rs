use spreadsheet::engine::{
    cell_update, install, probe_cell, probe_operand, try_cell_update, Outcome,
};
use spreadsheet::evaluate::val_update;
use spreadsheet::grid::{CycleRejected, EditRequest, Grid};
use spreadsheet::operation::{Aggregate, Arith, OpCode, Ops, Slot};
use spreadsheet::toposort::topo_sort;
use spreadsheet::wiring::{link, unlink};

fn parts(cell: &str, code: &str, first: &str, second: &str) -> Vec<String> {
    vec![
        String::from(cell),
        String::from(code),
        String::from(first),
        String::from(second),
    ]
}

struct Stores {
    database: Vec<i32>,
    err: Vec<bool>,
    opers: Vec<Ops>,
    sensi: Vec<Vec<i32>>,
    indegree: Vec<i32>,
    len_h: i32,
}

fn stores(len_h: i32, len_v: i32) -> Stores {
    let n = (len_h * len_v + 1) as usize;
    Stores {
        database: vec![0; n],
        err: vec![false; n],
        opers: vec![Ops::empty(); n],
        sensi: vec![Vec::new(); n],
        indegree: vec![0; n],
        len_h,
    }
}

fn edit(s: &mut Stores, cell: &str, code: &str, first: &str, second: &str) -> Outcome {
    let out = cell_update(
        &parts(cell, code, first, second),
        &mut s.database,
        &mut s.sensi,
        &mut s.opers,
        s.len_h,
        &mut s.indegree,
        &mut s.err,
    );
    assert!(s.indegree.iter().all(|&d| d == 0));
    out
}

#[test]
fn decode_every_code() {
    assert_eq!(OpCode::decode(""), OpCode::Empty);
    assert_eq!(OpCode::decode("XYZ"), OpCode::Empty);
    assert_eq!(OpCode::decode("CCAA"), OpCode::Empty);
    assert_eq!(OpCode::decode("EQV"), OpCode::AssignValue);
    assert_eq!(OpCode::decode("EQC"), OpCode::AssignCell);
    assert_eq!(OpCode::decode("SUM"), OpCode::Range(Aggregate::Sum));
    assert_eq!(OpCode::decode("MIN"), OpCode::Range(Aggregate::Min));
    assert_eq!(OpCode::decode("MAX"), OpCode::Range(Aggregate::Max));
    assert_eq!(OpCode::decode("MEA"), OpCode::Range(Aggregate::Mean));
    assert_eq!(OpCode::decode("STD"), OpCode::Range(Aggregate::Stdev));
    assert_eq!(OpCode::decode("SLV"), OpCode::SleepValue);
    assert_eq!(OpCode::decode("SLC"), OpCode::SleepCell);
    assert_eq!(OpCode::decode("SRL"), OpCode::Scroll);
    let slots = [('C', Slot::Cell), ('V', Slot::Value)];
    let opers = [
        ('A', Arith::Add),
        ('S', Arith::Sub),
        ('M', Arith::Mul),
        ('D', Arith::Div),
    ];
    for (a, first) in slots {
        for (b, second) in slots {
            for (c, oper) in opers {
                let code = format!("{}{}{}", a, b, c);
                assert_eq!(OpCode::decode(&code), OpCode::Arith(first, second, oper));
                assert_eq!(OpCode::decode(&code).reads_first(), a == 'C');
                assert_eq!(OpCode::decode(&code).reads_second(), b == 'C');
                assert!(!OpCode::decode(&code).reads_range());
            }
        }
    }
    assert!(OpCode::decode("EQC").reads_first());
    assert!(OpCode::decode("SLC").reads_first());
    assert!(!OpCode::decode("EQV").reads_first());
    assert!(OpCode::decode("SUM").reads_range());
}

#[test]
fn arithmetic_table_of_all_sixteen_codes() {
    // cell 1 holds 10, cell 2 holds 5; literals are 7 and 3
    let table: [(&str, i32, i32, i32); 16] = [
        ("CCA", 1, 2, 15),
        ("CVA", 1, 3, 13),
        ("VCA", 7, 2, 12),
        ("VVA", 7, 3, 10),
        ("CCS", 1, 2, 5),
        ("CVS", 1, 3, 7),
        ("VCS", 7, 2, 2),
        ("VVS", 7, 3, 4),
        ("CCM", 1, 2, 50),
        ("CVM", 1, 3, 30),
        ("VCM", 7, 2, 35),
        ("VVM", 7, 3, 21),
        ("CCD", 1, 2, 2),
        ("CVD", 1, 3, 3),
        ("VCD", 7, 2, 1),
        ("VVD", 7, 3, 2),
    ];
    for (code, a, b, expected) in table {
        for (err1, err2) in [(false, false), (true, false), (false, true), (true, true)] {
            let mut database = vec![0, 10, 5, -99];
            let mut err = vec![false, err1, err2, true];
            let opers = vec![
                Ops::empty(),
                Ops::new("EQV", 10, -1),
                Ops::new("EQV", 5, -1),
                Ops::new(code, a, b),
            ];
            let delay = spreadsheet::evaluate::calc(3, &mut database, &opers, 3, &mut err);
            assert_eq!(delay, 0);
            assert_eq!(database[3], expected, "{}", code);
            let first_cell = code.as_bytes()[0] == b'C';
            let second_cell = code.as_bytes()[1] == b'C';
            assert_eq!(err[3], (first_cell && err1) || (second_cell && err2), "{}", code);
            assert_eq!(database[1], 10);
            assert_eq!(database[2], 5);
            assert_eq!(err[1], err1);
            assert_eq!(err[2], err2);
        }
    }
}

#[test]
fn literal_arithmetic_clears_a_stale_error() {
    let mut database = vec![0, 0];
    let mut err = vec![false, true];
    let opers = vec![Ops::empty(), Ops::new("VVA", 7, 3)];
    spreadsheet::evaluate::calc(1, &mut database, &opers, 1, &mut err);
    assert_eq!(database[1], 10);
    assert!(!err[1]);
}

#[test]
fn division_by_zero_keeps_the_stale_value() {
    for (code, a, b) in [("CCD", 1, 2), ("CVD", 1, 0), ("VCD", 7, 2), ("VVD", 7, 0)] {
        let mut database = vec![0, 10, 0, 15];
        let mut err = vec![false, false, false, false];
        let opers = vec![
            Ops::empty(),
            Ops::new("EQV", 10, -1),
            Ops::new("EQV", 0, -1),
            Ops::new(code, a, b),
        ];
        spreadsheet::evaluate::calc(3, &mut database, &opers, 3, &mut err);
        assert_eq!(database[3], 15, "{}", code);
        assert!(err[3], "{}", code);
    }
}

#[test]
fn division_rounds_toward_zero_and_wraps() {
    let mut database = vec![0, -7, 2, 0, i32::MIN, -1, 0];
    let mut err = vec![false; 7];
    let opers = vec![
        Ops::empty(),
        Ops::empty(),
        Ops::empty(),
        Ops::new("CCD", 1, 2),
        Ops::empty(),
        Ops::empty(),
        Ops::new("CCD", 4, 5),
    ];
    spreadsheet::evaluate::calc(3, &mut database, &opers, 6, &mut err);
    assert_eq!(database[3], -3);
    spreadsheet::evaluate::calc(6, &mut database, &opers, 6, &mut err);
    assert_eq!(database[6], i32::MIN);
    assert!(!err[6]);
    let mut database = vec![0, 0];
    let opers = vec![Ops::empty(), Ops::new("VVD", 7, -2)];
    spreadsheet::evaluate::calc(1, &mut database, &opers, 1, &mut err);
    assert_eq!(database[1], -3);
}

#[test]
fn sums_differences_and_products_wrap() {
    let mut database = vec![0, 0];
    let mut err = vec![false, false];
    let opers = vec![Ops::empty(), Ops::new("VVA", i32::MAX, 1)];
    spreadsheet::evaluate::calc(1, &mut database, &opers, 1, &mut err);
    assert_eq!(database[1], i32::MIN);
    let opers = vec![Ops::empty(), Ops::new("VVS", i32::MIN, 1)];
    spreadsheet::evaluate::calc(1, &mut database, &opers, 1, &mut err);
    assert_eq!(database[1], i32::MAX);
    let opers = vec![Ops::empty(), Ops::new("VVM", 65536, 65536)];
    spreadsheet::evaluate::calc(1, &mut database, &opers, 1, &mut err);
    assert_eq!(database[1], 0);
    let opers = vec![Ops::empty(), Ops::new("VVM", i32::MAX, i32::MAX)];
    spreadsheet::evaluate::calc(1, &mut database, &opers, 1, &mut err);
    assert_eq!(database[1], 1);
    let opers = vec![Ops::empty(), Ops::new("VVM", i32::MIN, -1)];
    spreadsheet::evaluate::calc(1, &mut database, &opers, 1, &mut err);
    assert_eq!(database[1], i32::MIN);
    assert!(!err[1]);
}

#[test]
fn assignment_and_delay_formulas() {
    let mut database = vec![0, 4, -3, 9, 9, 9, 9, 9];
    let mut err = vec![false, false, false, true, true, true, false, false];
    let opers = vec![
        Ops::empty(),
        Ops::empty(),
        Ops::empty(),
        Ops::new("EQV", 12, -1),
        Ops::new("EQC", 1, -1),
        Ops::new("SLV", -5, -1),
        Ops::new("SLC", 1, -1),
        Ops::new("SLC", 2, -1),
    ];
    assert_eq!(spreadsheet::evaluate::calc(3, &mut database, &opers, 7, &mut err), 0);
    assert_eq!((database[3], err[3]), (12, false));
    assert_eq!(spreadsheet::evaluate::calc(4, &mut database, &opers, 7, &mut err), 0);
    assert_eq!((database[4], err[4]), (4, false));
    // a negative delay is no delay
    assert_eq!(spreadsheet::evaluate::calc(5, &mut database, &opers, 7, &mut err), 0);
    assert_eq!((database[5], err[5]), (-5, false));
    assert_eq!(spreadsheet::evaluate::calc(6, &mut database, &opers, 7, &mut err), 4);
    assert_eq!((database[6], err[6]), (4, false));
    assert_eq!(spreadsheet::evaluate::calc(7, &mut database, &opers, 7, &mut err), 0);
    assert_eq!((database[7], err[7]), (-3, false));
}

#[test]
fn delay_on_a_cell_in_error_keeps_the_value() {
    let mut database = vec![0, 30, 15];
    let mut err = vec![false, true, false];
    let opers = vec![Ops::empty(), Ops::empty(), Ops::new("SLC", 1, -1)];
    assert_eq!(spreadsheet::evaluate::calc(2, &mut database, &opers, 2, &mut err), 0);
    assert_eq!(database[2], 15);
    assert!(err[2]);
    let opers = vec![Ops::empty(), Ops::empty(), Ops::new("EQC", 1, -1)];
    spreadsheet::evaluate::calc(2, &mut database, &opers, 2, &mut err);
    assert_eq!(database[2], 30);
    assert!(err[2]);
}

#[test]
fn empty_and_scroll_formulas_change_nothing() {
    let mut database = vec![0, 30, 15];
    let mut err = vec![false, true, false];
    let opers = vec![Ops::empty(), Ops::new("SRL", 1, 1), Ops::new("???", 1, 1)];
    assert_eq!(spreadsheet::evaluate::calc(1, &mut database, &opers, 2, &mut err), 0);
    assert_eq!(spreadsheet::evaluate::calc(2, &mut database, &opers, 2, &mut err), 0);
    assert_eq!(database, vec![0, 30, 15]);
    assert_eq!(err, vec![false, true, false]);
}

#[test]
fn val_update_adds_up_the_delays() {
    let mut database = vec![0, 0, 0, 0];
    let mut err = vec![false; 4];
    let opers = vec![
        Ops::empty(),
        Ops::new("SLV", 2, -1),
        Ops::new("SLC", 1, -1),
        Ops::new("CVA", 2, 1),
    ];
    let delay = val_update(&[3, 1, 2, 3], &mut database, &opers, 3, &mut err);
    assert_eq!(delay, 4);
    assert_eq!(database, vec![0, 2, 2, 3]);
    // only as many cells as the first entry says are recomputed
    let mut database = vec![0, 0, 0, 0];
    let delay = val_update(&[1, 1, 2, 3], &mut database, &opers, 3, &mut err);
    assert_eq!(delay, 2);
    assert_eq!(database, vec![0, 2, 0, 0]);
    assert_eq!(val_update(&[0], &mut database, &opers, 3, &mut err), 0);
}

#[test]
fn topo_sort_orders_a_diamond() {
    // 1 -> 2, 1 -> 3, 2 -> 4, 3 -> 4, and 4 -> 5 twice
    let adj = vec![
        vec![],
        vec![2, 3],
        vec![4],
        vec![4],
        vec![5, 5],
        vec![],
        vec![1],
    ];
    let mut indegree = vec![0; 7];
    let order = topo_sort(&adj, 1, &mut indegree);
    assert_eq!(order, vec![5, 1, 2, 3, 4, 5]);
    assert_eq!(indegree, vec![0; 7]);
    let order = topo_sort(&adj, 4, &mut indegree);
    assert_eq!(order, vec![2, 4, 5]);
    let order = topo_sort(&adj, 5, &mut indegree);
    assert_eq!(order, vec![1, 5]);
    let order = topo_sort(&adj, 6, &mut indegree);
    assert_eq!(order, vec![6, 6, 1, 2, 3, 4, 5]);
    assert_eq!(indegree, vec![0; 7]);
}

#[test]
fn topo_sort_reports_a_cycle_and_clears_the_workspace() {
    // 1 -> 2 -> 3 -> 1, and 2 -> 4
    let adj = vec![vec![], vec![2], vec![4, 3], vec![1], vec![]];
    let mut indegree = vec![0; 5];
    assert_eq!(topo_sort(&adj, 1, &mut indegree), vec![-1]);
    assert_eq!(indegree, vec![0; 5]);
    assert_eq!(topo_sort(&adj, 2, &mut indegree), vec![-1]);
    assert_eq!(topo_sort(&adj, 3, &mut indegree), vec![-1]);
    assert_eq!(indegree, vec![0; 5]);
    // a cell that reads itself
    let adj = vec![vec![], vec![1]];
    let mut indegree = vec![0; 2];
    assert_eq!(topo_sort(&adj, 1, &mut indegree), vec![-1]);
    assert_eq!(indegree, vec![0; 2]);
}

#[test]
fn cycle_rejection_changes_nothing() {
    let mut s = stores(3, 1);
    assert_eq!(edit(&mut s, "B1", "EQV", "4", "").status, 1);
    assert_eq!(edit(&mut s, "A1", "CVA", "B1", "1").status, 1);
    assert_eq!(s.database[1], 5);
    let before = (
        s.database.clone(),
        s.err.clone(),
        s.opers.clone(),
        s.sensi.clone(),
    );
    let out = edit(&mut s, "B1", "CVA", "A1", "1");
    assert_eq!(out, Outcome { status: 0, delay: 0 });
    assert_eq!(s.opers[2], Ops::new("EQV", 4, -3));
    assert_eq!(s.database[2], 4);
    assert!(!s.err[2]);
    assert_eq!(before.0, s.database);
    assert_eq!(before.1, s.err);
    assert_eq!(before.2, s.opers);
    assert_eq!(before.3, s.sensi);
    assert_eq!(s.indegree, vec![0; 4]);
}

#[test]
fn self_reference_is_a_cycle() {
    for (code, first, second) in [
        ("CVA", "A1", "1"),
        ("VCM", "2", "A1"),
        ("CCS", "A1", "A1"),
        ("EQC", "A1", ""),
        ("SLC", "A1", ""),
        ("SUM", "A1", "C1"),
        ("STD", "A1", "A1"),
    ] {
        let mut s = stores(3, 1);
        s.database[1] = 7;
        assert_eq!(edit(&mut s, "A1", code, first, second).status, 0, "{}", code);
        assert_eq!(s.database[1], 7);
        assert_eq!(s.opers[1], Ops::empty());
        assert_eq!(s.sensi, vec![Vec::<i32>::new(); 4]);
    }
}

#[test]
fn longer_cycle_is_rejected_and_rolled_back() {
    let mut s = stores(4, 1);
    assert_eq!(edit(&mut s, "B1", "CVA", "A1", "1").status, 1);
    assert_eq!(edit(&mut s, "C1", "CCA", "B1", "B1").status, 1);
    assert_eq!(edit(&mut s, "D1", "MAX", "A1", "C1").status, 1);
    assert_eq!(s.sensi[1], vec![2, 4]);
    assert_eq!(s.sensi[2], vec![3, 3, 4]);
    assert_eq!(s.sensi[3], vec![4]);
    let before = (s.database.clone(), s.err.clone(), s.opers.clone());
    let readers = s.sensi.clone();
    assert_eq!(edit(&mut s, "A1", "EQC", "D1", "").status, 0);
    assert_eq!(edit(&mut s, "A1", "SUM", "C1", "D1").status, 0);
    assert_eq!(edit(&mut s, "B1", "MIN", "B1", "D1").status, 0);
    assert_eq!(edit(&mut s, "B1", "CCD", "A1", "C1").status, 0);
    assert_eq!((s.database.clone(), s.err.clone(), s.opers.clone()), before);
    assert_eq!(s.sensi, readers);
}

#[test]
fn rollback_puts_readers_back_where_they_stood() {
    let mut s = stores(3, 1);
    assert_eq!(edit(&mut s, "B1", "CVA", "A1", "1").status, 1);
    assert_eq!(edit(&mut s, "C1", "CCA", "A1", "B1").status, 1);
    assert_eq!(s.sensi[1], vec![2, 3]);
    // B1 = C1 + 1 would close a cycle; B1 leaves the readers of A1 and
    // comes back in front of C1
    assert_eq!(edit(&mut s, "B1", "CVA", "C1", "1").status, 0);
    assert_eq!(s.sensi[1], vec![2, 3]);
    assert_eq!(s.sensi[2], vec![3]);
    assert_eq!(s.sensi[3], Vec::<i32>::new());
    // the same with a range in place of the sum
    assert_eq!(edit(&mut s, "B1", "MAX", "A1", "A1").status, 1);
    assert_eq!(edit(&mut s, "C1", "CCS", "A1", "A1").status, 1);
    assert_eq!(edit(&mut s, "C1", "CCA", "A1", "B1").status, 1);
    assert_eq!(s.sensi[1], vec![2, 3]);
    assert_eq!(edit(&mut s, "B1", "MIN", "C1", "C1").status, 0);
    assert_eq!(edit(&mut s, "B1", "MIN", "A1", "C1").status, 0);
    assert_eq!(edit(&mut s, "B1", "CCM", "A1", "C1").status, 0);
    assert_eq!(s.sensi[1], vec![2, 3]);
    assert_eq!(s.sensi[2], vec![3]);
    assert_eq!(s.sensi[3], Vec::<i32>::new());
    assert_eq!(s.opers[2], Ops::new("MAX", 1, 1));
}

#[test]
fn every_read_is_listed_once() {
    let mut s = stores(3, 3);
    // A1 = B1 + B1 reads B1 twice
    assert_eq!(edit(&mut s, "A1", "CCA", "B1", "B1").status, 1);
    assert_eq!(s.sensi[2], vec![1, 1]);
    // A1 = B1 - C1 reads B1 once
    assert_eq!(edit(&mut s, "A1", "CCS", "B1", "C1").status, 1);
    assert_eq!(s.sensi[2], vec![1]);
    assert_eq!(s.sensi[3], vec![1]);
    // a range lists its reader at every cell of the rectangle
    assert_eq!(edit(&mut s, "A1", "SUM", "B2", "C3").status, 1);
    assert_eq!(s.sensi[2], Vec::<i32>::new());
    assert_eq!(s.sensi[3], Vec::<i32>::new());
    for x in [5, 6, 8, 9] {
        assert_eq!(s.sensi[x], vec![1]);
    }
    for x in [1, 4, 7] {
        assert_eq!(s.sensi[x], Vec::<i32>::new());
    }
    // a literal reads nothing
    assert_eq!(edit(&mut s, "A1", "EQV", "3", "").status, 1);
    assert_eq!(s.sensi, vec![Vec::<i32>::new(); 10]);
}

#[test]
fn resized_range_leaves_shared_cells_alone() {
    let mut s = stores(1, 9);
    assert_eq!(edit(&mut s, "A9", "SUM", "A1", "A4").status, 1);
    assert_eq!(edit(&mut s, "A8", "CVA", "A2", "0").status, 1);
    assert_eq!(edit(&mut s, "A7", "CVA", "A5", "0").status, 1);
    assert_eq!(s.sensi[2], vec![9, 8]);
    assert_eq!(s.sensi[5], vec![7]);
    // from A1:A4 to A2:A6: A2..A4 keep their entry where it stands
    assert_eq!(edit(&mut s, "A9", "MIN", "A2", "A6").status, 1);
    assert_eq!(s.sensi[1], Vec::<i32>::new());
    assert_eq!(s.sensi[2], vec![9, 8]);
    assert_eq!(s.sensi[3], vec![9]);
    assert_eq!(s.sensi[4], vec![9]);
    assert_eq!(s.sensi[5], vec![7, 9]);
    assert_eq!(s.sensi[6], vec![9]);
}

#[test]
fn range_shrink_releases_edges() {
    let mut s = stores(1, 9);
    for i in 1..9 {
        assert_eq!(edit(&mut s, &format!("A{}", i), "EQV", &format!("{}", i), "0").status, 1);
    }
    assert_eq!(edit(&mut s, "A9", "SUM", "A1", "A8").status, 1);
    assert_eq!(s.database[9], 36);
    assert_eq!(edit(&mut s, "A1", "EQV", "10", "0").status, 1);
    assert_eq!(s.database[9], 45);
    assert_eq!(edit(&mut s, "A9", "SUM", "A1", "A5").status, 1);
    assert_eq!(s.database[9], 24);
    for x in 6..=8 {
        assert_eq!(s.sensi[x], Vec::<i32>::new());
    }
    // a stale value would show if cell 9 were recomputed
    s.database[9] = -1;
    assert_eq!(edit(&mut s, "A8", "EQV", "100", "0").status, 1);
    assert_eq!(s.database[8], 100);
    assert_eq!(s.database[9], -1);
    assert_eq!(edit(&mut s, "A5", "EQV", "0", "0").status, 1);
    assert_eq!(s.database[9], 10 + 2 + 3 + 4);
}

#[test]
fn dependents_are_recomputed_in_order() {
    let mut s = stores(5, 1);
    // E1 = D1 + C1, D1 = C1 * B1, C1 = B1 + A1, B1 = A1 + 1
    assert_eq!(edit(&mut s, "E1", "CCA", "D1", "C1").status, 1);
    assert_eq!(edit(&mut s, "D1", "CCM", "C1", "B1").status, 1);
    assert_eq!(edit(&mut s, "C1", "CCA", "B1", "A1").status, 1);
    assert_eq!(edit(&mut s, "B1", "CVA", "A1", "1").status, 1);
    assert_eq!(&s.database[1..], &[0, 1, 1, 1, 2]);
    assert_eq!(edit(&mut s, "A1", "EQV", "3", "").status, 1);
    assert_eq!(&s.database[1..], &[3, 4, 7, 28, 35]);
    assert_eq!(edit(&mut s, "A1", "VVD", "1", "0").status, 1);
    assert_eq!(&s.database[1..], &[3, 4, 7, 28, 35]);
    assert_eq!(&s.err[1..], &[true, true, true, true, true]);
    assert_eq!(edit(&mut s, "B1", "EQV", "2", "").status, 1);
    assert_eq!(&s.database[1..], &[3, 2, 5, 10, 15]);
    assert_eq!(&s.err[1..], &[true, false, true, true, true]);
    assert_eq!(edit(&mut s, "A1", "EQV", "-1", "").status, 1);
    assert_eq!(&s.database[1..], &[-1, 2, 1, 2, 3]);
    assert_eq!(&s.err[1..], &[false; 5]);
}

#[test]
fn install_takes_resolved_operands() {
    let mut s = stores(2, 2);
    let op = Ops { code: OpCode::Arith(Slot::Value, Slot::Value, Arith::Mul), cell1: 6, cell2: 7 };
    let out = install(
        4,
        op,
        &mut s.database,
        &mut s.sensi,
        &mut s.opers,
        2,
        &mut s.indegree,
        &mut s.err,
    );
    assert_eq!(out, Outcome { status: 1, delay: 0 });
    assert_eq!(s.database, vec![0, 0, 0, 0, 42]);
    assert_eq!(s.opers[4], op);
}

#[test]
fn delays_of_an_edit_add_up() {
    let mut s = stores(4, 1);
    assert_eq!(edit(&mut s, "B1", "SLC", "A1", ""), Outcome { status: 1, delay: 0 });
    assert_eq!(edit(&mut s, "C1", "SLC", "B1", ""), Outcome { status: 1, delay: 0 });
    assert_eq!(edit(&mut s, "D1", "SLV", "5", ""), Outcome { status: 1, delay: 5 });
    assert_eq!(edit(&mut s, "A1", "EQV", "3", ""), Outcome { status: 1, delay: 6 });
    assert_eq!(&s.database[1..], &[3, 3, 3, 5]);
    assert_eq!(edit(&mut s, "A1", "SLV", "2", ""), Outcome { status: 1, delay: 6 });
    assert_eq!(edit(&mut s, "A1", "VVD", "2", "0"), Outcome { status: 1, delay: 0 });
    assert_eq!(&s.database[1..], &[2, 2, 2, 5]);
    assert_eq!(&s.err[1..], &[true, true, true, false]);
}

#[test]
fn grid_applies_and_rejects_edits() {
    let mut grid = Grid::new(3, 2);
    assert_eq!((grid.columns, grid.rows), (3, 2));
    assert_eq!(grid.values, vec![0; 7]);
    assert_eq!(grid.errors, vec![false; 7]);
    assert_eq!(grid.formulas, vec![Ops::empty(); 7]);
    assert_eq!(grid.readers, vec![Vec::<i32>::new(); 7]);
    assert_eq!(grid.indegree, vec![0; 7]);
    let set = |target: i32, code: &str, operand1: i32, operand2: i32| EditRequest {
        target,
        code: OpCode::decode(code),
        operand1,
        operand2,
    };
    assert_eq!(grid.apply_edit(set(1, "EQV", 15, 0)), Ok(0));
    assert_eq!(grid.apply_edit(set(2, "CVA", 1, 1)), Ok(0));
    assert_eq!(grid.apply_edit(set(6, "SUM", 1, 5)), Ok(0));
    assert_eq!(grid.read(1), (15, false));
    assert_eq!(grid.read(2), (16, false));
    assert_eq!(grid.read(6), (31, false));
    // cell 1 would read cell 2, which reads cell 1
    let before = (grid.values.clone(), grid.errors.clone(), grid.formulas.clone());
    assert_eq!(grid.apply_edit(set(1, "CVA", 2, 1)), Err(CycleRejected));
    assert_eq!(grid.apply_edit(set(1, "EQC", 6, 0)), Err(CycleRejected));
    assert_eq!(grid.apply_edit(set(4, "CCA", 4, 4)), Err(CycleRejected));
    assert_eq!((grid.values.clone(), grid.errors.clone(), grid.formulas.clone()), before);
    assert_eq!(grid.indegree, vec![0; 7]);
    // dividing by zero keeps 15 and raises the flag, which spreads
    assert_eq!(grid.apply_edit(set(1, "CCD", 2, 3)), Err(CycleRejected));
    assert_eq!(grid.apply_edit(set(1, "VCD", 9, 3)), Ok(0));
    assert_eq!(grid.read(1), (15, true));
    assert_eq!(grid.read(2), (16, true));
    assert_eq!(grid.read(6), (31, true));
    assert_eq!(grid.apply_edit(set(3, "SLV", 2, 0)), Ok(2));
    assert_eq!(grid.read(1), (4, false));
    assert_eq!(grid.read(2), (5, false));
    // cell 6 adds up the cells 1, 2, 4 and 5
    assert_eq!(grid.read(6), (9, false));
    assert_eq!(grid.indegree, vec![0; 7]);
}

#[test]
fn codes_are_written_as_they_are_read() {
    let mut all = vec![
        OpCode::Empty,
        OpCode::AssignValue,
        OpCode::AssignCell,
        OpCode::SleepValue,
        OpCode::SleepCell,
        OpCode::Scroll,
    ];
    for aggregate in [
        Aggregate::Sum,
        Aggregate::Min,
        Aggregate::Max,
        Aggregate::Mean,
        Aggregate::Stdev,
    ] {
        all.push(OpCode::Range(aggregate));
    }
    for first in [Slot::Cell, Slot::Value] {
        for second in [Slot::Cell, Slot::Value] {
            for oper in [Arith::Add, Arith::Sub, Arith::Mul, Arith::Div] {
                all.push(OpCode::Arith(first, second, oper));
            }
        }
    }
    assert_eq!(all.len(), 27);
    for code in all {
        assert_eq!(OpCode::decode(&code.mnemonic()), code);
    }
    assert_eq!(OpCode::Empty.mnemonic(), "");
    assert_eq!(OpCode::Arith(Slot::Cell, Slot::Value, Arith::Div).mnemonic(), "CVD");
    assert_eq!(OpCode::Range(Aggregate::Mean).mnemonic(), "MEA");
    assert_eq!(OpCode::Range(Aggregate::Stdev).mnemonic(), "STD");
    assert_eq!(OpCode::SleepCell.mnemonic(), "SLC");
    assert_eq!(OpCode::Scroll.mnemonic(), "SRL");
}

#[test]
fn formulas_that_read_beyond_the_grid_are_not_valid() {
    // a store of 7 entries holds the cells 1 to 6 of a grid 3 wide
    assert!(Ops::new("CCA", 1, 6).is_valid(7, 3));
    assert!(!Ops::new("CCA", 0, 6).is_valid(7, 3));
    assert!(!Ops::new("CCA", 1, 7).is_valid(7, 3));
    assert!(Ops::new("CVA", 1, 7).is_valid(7, 3));
    assert!(Ops::new("VCA", -1, 6).is_valid(7, 3));
    assert!(!Ops::new("VCA", 1, -6).is_valid(7, 3));
    assert!(Ops::new("VVA", 100, -100).is_valid(7, 3));
    assert!(Ops::new("EQV", 100, 100).is_valid(7, 3));
    assert!(Ops::new("SLV", -100, 100).is_valid(7, 3));
    assert!(Ops::new("EQC", 6, 100).is_valid(7, 3));
    assert!(!Ops::new("EQC", 7, 1).is_valid(7, 3));
    assert!(!Ops::new("SLC", 0, 1).is_valid(7, 3));
    assert!(Ops::empty().is_valid(7, 3));
    assert!(Ops::new("SRL", 9, 9).is_valid(7, 3));
    // the corners of a range come in order, by column and by row
    assert!(Ops::new("SUM", 1, 6).is_valid(7, 3));
    assert!(Ops::new("SUM", 2, 5).is_valid(7, 3));
    assert!(Ops::new("SUM", 4, 4).is_valid(7, 3));
    assert!(!Ops::new("SUM", 2, 4).is_valid(7, 3));
    assert!(!Ops::new("SUM", 4, 2).is_valid(7, 3));
    assert!(!Ops::new("SUM", 3, 4).is_valid(7, 3));
    assert!(!Ops::new("SUM", 0, 4).is_valid(7, 3));
    assert!(!Ops::new("STD", 1, 7).is_valid(7, 3));
}

#[test]
fn probing_labels_and_operands() {
    assert_eq!(probe_cell("A1", 10), Some(1));
    assert_eq!(probe_cell("B5", 10), Some(42));
    assert_eq!(probe_cell("", 10), Some(-10));
    assert_eq!(probe_cell("A-5", 10), Some(0 + (995 - 1) * 10));
    assert_eq!(probe_cell("-5", 10), None);
    assert_eq!(probe_cell("ZZZZZZZZ1", 10), None);
    assert_eq!(probe_cell("A999", i32::MAX), None);
    assert_eq!(probe_cell("ZZZZ1", 1), Some(475254));
    assert_eq!(probe_operand("12", 10), Some(12));
    assert_eq!(probe_operand("-12", 10), Some(-12));
    assert_eq!(probe_operand("B5", 10), Some(42));
    assert_eq!(probe_operand("+", 10), Some(-10));
    assert_eq!(probe_operand("99999999999", 10), Some(-10));
    assert_eq!(probe_operand("ZZZZZZZZ1", 10), None);
}

#[test]
fn edits_beyond_the_grid_change_nothing() {
    let mut s = stores(3, 2);
    assert_eq!(edit(&mut s, "A1", "CVA", "B1", "1").status, 1);
    let before = (
        s.database.clone(),
        s.err.clone(),
        s.opers.clone(),
        s.sensi.clone(),
    );
    for request in [
        parts("A3", "EQV", "1", ""),
        parts("D1", "EQV", "1", "").into_iter().take(3).collect(),
        parts("ZZZZZZZZ1", "EQV", "1", ""),
        parts("A1", "EQC", "C3", ""),
        parts("A1", "CCA", "B1", "7"),
        parts("A1", "CCA", "ZZZZZZZZ1", "B1"),
        parts("A1", "VCA", "B1", "ZZZZZZZZ1"),
        parts("A1", "SUM", "B2", "A1"),
        parts("A1", "SUM", "C1", "B2"),
        parts("A1", "MAX", "1001", "2002"),
        parts("-1", "EQV", "1", ""),
    ] {
        let out = try_cell_update(
            &request,
            &mut s.database,
            &mut s.sensi,
            &mut s.opers,
            s.len_h,
            &mut s.indegree,
            &mut s.err,
        );
        assert_eq!(out, None, "{:?}", request);
        assert_eq!(before.0, s.database);
        assert_eq!(before.1, s.err);
        assert_eq!(before.2, s.opers);
        assert_eq!(before.3, s.sensi);
    }
    let out = try_cell_update(
        &parts("C2", "SUM", "A1", "B2"),
        &mut s.database,
        &mut s.sensi,
        &mut s.opers,
        s.len_h,
        &mut s.indegree,
        &mut s.err,
    );
    assert_eq!(out, Some(Outcome { status: 1, delay: 0 }));
    assert_eq!(s.database[6], 1);
    let out = try_cell_update(
        &parts("B1", "EQC", "C2", ""),
        &mut s.database,
        &mut s.sensi,
        &mut s.opers,
        s.len_h,
        &mut s.indegree,
        &mut s.err,
    );
    assert_eq!(out, Some(Outcome { status: 0, delay: 0 }));
}

#[test]
fn grids_of_no_size_cannot_be_had() {
    assert!(Grid::try_new(0, 5).is_none());
    assert!(Grid::try_new(5, 0).is_none());
    assert!(Grid::try_new(-1, -1).is_none());
    assert!(Grid::try_new(65536, 32768).is_none());
    assert!(Grid::try_new(i32::MAX, i32::MAX).is_none());
    let grid = Grid::try_new(2, 3).unwrap();
    assert_eq!((grid.columns, grid.rows, grid.values.len()), (2, 3, 7));
    let ask = |target: i32, code: &str, operand1: i32, operand2: i32| EditRequest {
        target,
        code: OpCode::decode(code),
        operand1,
        operand2,
    };
    assert!(grid.can_apply(ask(1, "EQV", 5, 0)));
    assert!(grid.can_apply(ask(6, "SUM", 1, 6)));
    assert!(!grid.can_apply(ask(0, "EQV", 5, 0)));
    assert!(!grid.can_apply(ask(7, "EQV", 5, 0)));
    assert!(!grid.can_apply(ask(1, "EQC", 7, 0)));
    assert!(!grid.can_apply(ask(1, "SUM", 4, 1)));
}

#[test]
fn readers_are_appended_and_taken_from_the_back() {
    let mut sensi = vec![vec![], vec![4, 2, 4, 3], vec![2]];
    link(&mut sensi, 0, 9);
    link(&mut sensi, 1, 2);
    assert_eq!(sensi, vec![vec![9], vec![4, 2, 4, 3, 2], vec![2]]);
    assert_eq!(unlink(&mut sensi, 1, 4), 2);
    assert_eq!(sensi[1], vec![4, 2, 3, 2]);
    assert_eq!(unlink(&mut sensi, 1, 4), 0);
    assert_eq!(unlink(&mut sensi, 1, 2), 2);
    assert_eq!(unlink(&mut sensi, 2, 2), 0);
    assert_eq!(sensi, vec![vec![9], vec![2, 3], vec![]]);
}
