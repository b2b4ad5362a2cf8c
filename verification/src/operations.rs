//! Aggregates over a rectangle of cells.
//!
//! A rectangle is named by the linear indices of its top-left and
//! bottom-right corners.  Each aggregate scans the rectangle column by column,
//! stores in the destination's error flag whether any scanned cell carries an
//! error, and returns its number whether or not that flag is set.

use crate::address::{
    column_of,
    coordinate_of,
    lemma_coordinate_round_trip,
    lemma_index_splits,
    lemma_linear_index_monotonic,
    linear_index,
    row_of,
};
use crate::numeric::{integer_sqrt, isqrt, quotient, wide_quotient, wrap, wrapped};
use crate::operation::in_rect;
use vstd::prelude::*;

verus! {

/// The value of each cell, as a term to add up.
pub open spec fn cell_value(values: Seq<i32>) -> spec_fn(int) -> int {
    |k: int| values[k] as int
}

/// The squared distance of each cell's value from `center`.
pub open spec fn squared_distance(values: Seq<i32>, center: int) -> spec_fn(int) -> int {
    |k: int| (values[k] - center) * (values[k] - center)
}

/// The sum of `term` over the rows `top..=bottom` of column `col`.
pub open spec fn column_total(
    term: spec_fn(int) -> int,
    columns: int,
    col: int,
    top: int,
    bottom: int,
) -> int
    decreases bottom - top + 1,
{
    if bottom < top {
        0
    } else {
        column_total(term, columns, col, top, bottom - 1) + term(
            linear_index(col, bottom, columns),
        )
    }
}

/// The sum of `term` over the columns `left..=right` and rows `top..=bottom`.
pub open spec fn rect_total(
    term: spec_fn(int) -> int,
    columns: int,
    left: int,
    right: int,
    top: int,
    bottom: int,
) -> int
    decreases right - left + 1,
{
    if right < left {
        0
    } else {
        rect_total(term, columns, left, right - 1, top, bottom) + column_total(
            term,
            columns,
            right,
            top,
            bottom,
        )
    }
}

/// The sum of `term` over the rectangle with corners `c1` and `c2`.
pub open spec fn range_total(term: spec_fn(int) -> int, c1: int, c2: int, columns: int) -> int {
    rect_total(
        term,
        columns,
        column_of(c1, columns),
        column_of(c2, columns),
        row_of(c1, columns),
        row_of(c2, columns),
    )
}

/// The number of cells in the rectangle with corners `c1` and `c2`.
pub open spec fn range_count(c1: int, c2: int, columns: int) -> int {
    let width = column_of(c2, columns) - column_of(c1, columns) + 1;
    let height = row_of(c2, columns) - row_of(c1, columns) + 1;
    if width <= 0 || height <= 0 {
        0
    } else {
        width * height
    }
}

/// Whether any cell of the rectangle carries an error.
pub open spec fn range_error(errors: Seq<bool>, c1: int, c2: int, columns: int) -> bool {
    exists|k: int| #[trigger] in_rect(k, c1, c2, columns) && errors[k]
}

/// `m` is the least value in the rectangle, or `i32::MAX` if it has no cell.
pub open spec fn is_range_min(values: Seq<i32>, c1: int, c2: int, columns: int, m: int) -> bool {
    &&& forall|k: int| #[trigger] in_rect(k, c1, c2, columns) ==> m <= values[k]
    &&& m == i32::MAX || exists|k: int| #[trigger] in_rect(k, c1, c2, columns) && values[k] == m
}

/// `m` is the greatest value in the rectangle, or `i32::MIN` if it has no
/// cell.
pub open spec fn is_range_max(values: Seq<i32>, c1: int, c2: int, columns: int, m: int) -> bool {
    &&& forall|k: int| #[trigger] in_rect(k, c1, c2, columns) ==> m >= values[k]
    &&& m == i32::MIN || exists|k: int| #[trigger] in_rect(k, c1, c2, columns) && values[k] == m
}

/// The least value in the rectangle.
pub open spec fn range_min(values: Seq<i32>, c1: int, c2: int, columns: int) -> int {
    choose|m: int| is_range_min(values, c1, c2, columns, m)
}

/// The greatest value in the rectangle.
pub open spec fn range_max(values: Seq<i32>, c1: int, c2: int, columns: int) -> int {
    choose|m: int| is_range_max(values, c1, c2, columns, m)
}

/// The sum of the values in the rectangle.
pub open spec fn range_sum(values: Seq<i32>, c1: int, c2: int, columns: int) -> int {
    range_total(cell_value(values), c1, c2, columns)
}

/// The mean of the values in the rectangle, rounded toward zero.
pub open spec fn range_mean(values: Seq<i32>, c1: int, c2: int, columns: int) -> int {
    quotient(range_sum(values, c1, c2, columns), range_count(c1, c2, columns))
}

/// The population standard deviation of the values in the rectangle, rounded
/// down and capped at `i32::MAX`.
pub open spec fn range_stdev(values: Seq<i32>, c1: int, c2: int, columns: int) -> int {
    let mean = range_mean(values, c1, c2, columns);
    let spread = range_total(squared_distance(values, mean), c1, c2, columns);
    let root = integer_sqrt(spread / range_count(c1, c2, columns));
    if root > i32::MAX {
        i32::MAX as int
    } else {
        root
    }
}

/// A rectangle has at most one least value.
pub proof fn lemma_range_min_unique(
    values: Seq<i32>,
    c1: int,
    c2: int,
    columns: int,
    m1: int,
    m2: int,
)
    requires
        is_range_min(values, c1, c2, columns, m1),
        is_range_min(values, c1, c2, columns, m2),
    ensures
        m1 == m2,
{
}

/// A rectangle has at most one greatest value.
pub proof fn lemma_range_max_unique(
    values: Seq<i32>,
    c1: int,
    c2: int,
    columns: int,
    m1: int,
    m2: int,
)
    requires
        is_range_max(values, c1, c2, columns, m1),
        is_range_max(values, c1, c2, columns, m2),
    ensures
        m1 == m2,
{
}

/// Every cell of a rectangle lies between its corners in storage.
pub proof fn lemma_rect_between_corners(k: int, c1: int, c2: int, columns: int)
    requires
        columns >= 1,
        c1 >= 1,
        c2 >= 1,
        in_rect(k, c1, c2, columns),
    ensures
        c1 <= k <= c2,
{
    lemma_index_splits(k, columns);
    lemma_index_splits(c1, columns);
    lemma_index_splits(c2, columns);
    lemma_linear_index_monotonic(
        column_of(c1, columns),
        row_of(c1, columns),
        column_of(k, columns),
        row_of(k, columns),
        columns,
    );
    lemma_linear_index_monotonic(
        column_of(k, columns),
        row_of(k, columns),
        column_of(c2, columns),
        row_of(c2, columns),
        columns,
    );
}

/// The cells of the rectangle that a column-by-column scan has passed when it
/// stands at column `col`, row `row`.
pub open spec fn scanned(k: int, c1: int, c2: int, columns: int, col: int, row: int) -> bool {
    in_rect(k, c1, c2, columns) && (column_of(k, columns) < col || (column_of(k, columns) == col
        && row_of(k, columns) < row))
}

/// The scan passes exactly one more cell with each step down a column.
pub proof fn lemma_scan_step(c1: int, c2: int, columns: int, col: int, row: int)
    requires
        columns >= 1,
        c1 >= 1,
        c2 >= 1,
        column_of(c1, columns) <= col <= column_of(c2, columns),
        row_of(c1, columns) <= row <= row_of(c2, columns),
    ensures
        c1 <= linear_index(col, row, columns) <= c2,
        in_rect(linear_index(col, row, columns), c1, c2, columns),
        !scanned(linear_index(col, row, columns), c1, c2, columns, col, row),
        forall|k: int|
            #![trigger in_rect(k, c1, c2, columns)]
            scanned(k, c1, c2, columns, col, row + 1) <==> (scanned(k, c1, c2, columns, col, row)
                || k == linear_index(col, row, columns)),
{
    let here = linear_index(col, row, columns);
    lemma_index_splits(c1, columns);
    lemma_index_splits(c2, columns);
    lemma_coordinate_round_trip(col, row, columns);
    lemma_rect_between_corners(here, c1, c2, columns);
    assert forall|k: int|
        #![trigger in_rect(k, c1, c2, columns)]
        scanned(k, c1, c2, columns, col, row + 1) <==> (scanned(k, c1, c2, columns, col, row) || k
            == here) by {
        if k >= 1 {
            lemma_index_splits(k, columns);
        }
    }
}

/// What one scan of a rectangle gathers.
struct Survey {
    least: i32,
    greatest: i32,
    total: i128,
    count: i128,
    flagged: bool,
}

/// Scans the rectangle once.
fn survey(c1: i32, c2: i32, data_base: &[i32], n_cols: i32, err: &[bool]) -> (s: Survey)
    requires
        n_cols >= 1,
        1 <= c1 < data_base@.len(),
        1 <= c2 < data_base@.len(),
        err@.len() == data_base@.len(),
    ensures
        is_range_min(data_base@, c1 as int, c2 as int, n_cols as int, s.least as int),
        is_range_max(data_base@, c1 as int, c2 as int, n_cols as int, s.greatest as int),
        s.total == range_sum(data_base@, c1 as int, c2 as int, n_cols as int),
        s.count == range_count(c1 as int, c2 as int, n_cols as int),
        s.flagged == range_error(err@, c1 as int, c2 as int, n_cols as int),
        i32::MIN * s.count <= s.total <= i32::MAX * s.count,
        0 <= s.count <= 0x4000_0000_0000_0000,
{
    let (x1, y1) = coordinate_of(c1, n_cols);
    let (x2, y2) = coordinate_of(c2, n_cols);
    let ghost g1 = c1 as int;
    let ghost g2 = c2 as int;
    let ghost cols = n_cols as int;
    let ghost term = cell_value(data_base@);
    proof {
        lemma_index_splits(g1, cols);
        lemma_index_splits(g2, cols);
    }
    let mut s = Survey { least: i32::MAX, greatest: i32::MIN, total: 0, count: 0, flagged: false };
    if x1 > x2 || y1 > y2 {
        proof {
            assert forall|k: int| !(#[trigger] in_rect(k, g1, g2, cols)) by {}
            assert(x1 > x2 ==> rect_total(term, cols, x1 as int, x2 as int, y1 as int, y2 as int)
                == 0);
            if x1 <= x2 {
                lemma_empty_columns(term, cols, x1 as int, x2 as int, y1 as int, y2 as int);
            }
        }
        return s;
    }
    let height: i128 = (y2 - y1) as i128 + 1;
    let mut i: i64 = x1 as i64;
    while i <= x2 as i64
        invariant
            cols == n_cols,
            g1 == c1,
            g2 == c2,
            cols >= 1,
            1 <= g1 < data_base@.len(),
            1 <= g2 < data_base@.len(),
            err@.len() == data_base@.len(),
            term == cell_value(data_base@),
            x1 == column_of(g1, cols),
            x2 == column_of(g2, cols),
            y1 == row_of(g1, cols),
            y2 == row_of(g2, cols),
            x1 <= x2,
            1 <= y1 <= y2,
            height == y2 - y1 + 1,
            x1 <= i <= x2 + 1,
            s.count == (i - x1) * height,
            0 <= s.count <= 0x8000_0000 * (i - x1),
            i32::MIN * s.count <= s.total <= i32::MAX * s.count,
            s.total == rect_total(term, cols, x1 as int, i - 1, y1 as int, y2 as int),
            s.flagged == (exists|k: int| #[trigger]
                scanned(k, g1, g2, cols, i as int, y1 as int) && err@[k]),
            forall|k: int| #[trigger]
                scanned(k, g1, g2, cols, i as int, y1 as int) ==> s.least <= data_base@[k]
                    <= s.greatest,
            s.least == i32::MAX || exists|k: int| #[trigger]
                scanned(k, g1, g2, cols, i as int, y1 as int) && data_base@[k] == s.least,
            s.greatest == i32::MIN || exists|k: int| #[trigger]
                scanned(k, g1, g2, cols, i as int, y1 as int) && data_base@[k] == s.greatest,
        decreases x2 - i + 1,
    {
        let mut j: i64 = y1 as i64;
        while j <= y2 as i64
            invariant
                cols == n_cols,
                g1 == c1,
                g2 == c2,
                cols >= 1,
                1 <= g1 < data_base@.len(),
                1 <= g2 < data_base@.len(),
                err@.len() == data_base@.len(),
                term == cell_value(data_base@),
                x1 == column_of(g1, cols),
                x2 == column_of(g2, cols),
                y1 == row_of(g1, cols),
                y2 == row_of(g2, cols),
                x1 <= i <= x2,
                1 <= y1 <= j <= y2 + 1,
                height == y2 - y1 + 1,
                s.count == (i - x1) * height + (j - y1),
                0 <= s.count <= 0x8000_0000 * (i - x1) + (j - y1),
                i32::MIN * s.count <= s.total <= i32::MAX * s.count,
                s.total == rect_total(term, cols, x1 as int, i - 1, y1 as int, y2 as int)
                    + column_total(term, cols, i as int, y1 as int, j - 1),
                s.flagged == (exists|k: int| #[trigger]
                    scanned(k, g1, g2, cols, i as int, j as int) && err@[k]),
                forall|k: int| #[trigger]
                    scanned(k, g1, g2, cols, i as int, j as int) ==> s.least <= data_base@[k]
                        <= s.greatest,
                s.least == i32::MAX || exists|k: int| #[trigger]
                    scanned(k, g1, g2, cols, i as int, j as int) && data_base@[k] == s.least,
                s.greatest == i32::MIN || exists|k: int| #[trigger]
                    scanned(k, g1, g2, cols, i as int, j as int) && data_base@[k] == s.greatest,
            decreases y2 - j + 1,
        {
            proof {
                lemma_scan_step(g1, g2, cols, i as int, j as int);
                assert((j - 1) * cols >= 0) by (nonlinear_arith)
                    requires
                        j >= 1,
                        cols >= 1,
                ;
            }
            let ghost here = linear_index(i as int, j as int, cols);
            let at: usize = (i + (j - 1) * (n_cols as i64)) as usize;
            assert(at == here);
            let value: i32 = data_base[at];
            let ghost before = s;
            s.flagged = s.flagged || err[at];
            if value < s.least {
                s.least = value;
            }
            if value > s.greatest {
                s.greatest = value;
            }
            s.total = s.total + value as i128;
            s.count = s.count + 1;
            proof {
                assert(scanned(here, g1, g2, cols, i as int, j + 1));
                assert(term(here) == value);
                if before.flagged {
                    let k = choose|k: int| #[trigger]
                        scanned(k, g1, g2, cols, i as int, j as int) && err@[k];
                    assert(scanned(k, g1, g2, cols, i as int, j + 1));
                }
                if s.least != i32::MAX && s.least == before.least {
                    let k = choose|k: int| #[trigger]
                        scanned(k, g1, g2, cols, i as int, j as int) && data_base@[k]
                            == before.least;
                    assert(scanned(k, g1, g2, cols, i as int, j + 1));
                }
                if s.greatest != i32::MIN && s.greatest == before.greatest {
                    let k = choose|k: int| #[trigger]
                        scanned(k, g1, g2, cols, i as int, j as int) && data_base@[k]
                            == before.greatest;
                    assert(scanned(k, g1, g2, cols, i as int, j + 1));
                }
            }
            j = j + 1;
        }
        proof {
            assert forall|k: int| #[trigger]
                scanned(k, g1, g2, cols, i + 1, y1 as int) implies scanned(
                k,
                g1,
                g2,
                cols,
                i as int,
                j as int,
            ) by {}
            assert((i + 1 - x1) * height == (i - x1) * height + height) by (nonlinear_arith);
            if s.flagged {
                let k = choose|k: int| #[trigger]
                    scanned(k, g1, g2, cols, i as int, j as int) && err@[k];
                assert(scanned(k, g1, g2, cols, i + 1, y1 as int));
            }
            if s.least != i32::MAX {
                let k = choose|k: int| #[trigger]
                    scanned(k, g1, g2, cols, i as int, j as int) && data_base@[k] == s.least;
                assert(scanned(k, g1, g2, cols, i + 1, y1 as int));
            }
            if s.greatest != i32::MIN {
                let k = choose|k: int| #[trigger]
                    scanned(k, g1, g2, cols, i as int, j as int) && data_base@[k] == s.greatest;
                assert(scanned(k, g1, g2, cols, i + 1, y1 as int));
            }
        }
        i = i + 1;
    }
    proof {
        if s.flagged {
            let k = choose|k: int| #[trigger]
                scanned(k, g1, g2, cols, i as int, y1 as int) && err@[k];
            assert(in_rect(k, g1, g2, cols));
        }
        if s.least != i32::MAX {
            let k = choose|k: int| #[trigger]
                scanned(k, g1, g2, cols, i as int, y1 as int) && data_base@[k] == s.least;
            assert(in_rect(k, g1, g2, cols));
        }
        if s.greatest != i32::MIN {
            let k = choose|k: int| #[trigger]
                scanned(k, g1, g2, cols, i as int, y1 as int) && data_base@[k] == s.greatest;
            assert(in_rect(k, g1, g2, cols));
        }
        assert forall|k: int| #[trigger] in_rect(k, g1, g2, cols) implies s.least
            <= data_base@[k] <= s.greatest by {
            assert(scanned(k, g1, g2, cols, i as int, y1 as int));
        }
        if range_error(err@, g1, g2, cols) {
            let k = choose|k: int| #[trigger] in_rect(k, g1, g2, cols) && err@[k];
            assert(scanned(k, g1, g2, cols, i as int, y1 as int));
        }
        assert((x2 - x1 + 1) * height <= 0x8000_0000 * 0x8000_0000) by (nonlinear_arith)
            requires
                0 <= x2 - x1 + 1 <= 0x8000_0000,
                0 <= height <= 0x8000_0000,
        ;
    }
    s
}

/// A rectangle without rows adds up to nothing.
proof fn lemma_empty_columns(
    term: spec_fn(int) -> int,
    columns: int,
    left: int,
    right: int,
    top: int,
    bottom: int,
)
    requires
        bottom < top,
    ensures
        rect_total(term, columns, left, right, top, bottom) == 0,
    decreases right - left + 1,
{
    if right >= left {
        lemma_empty_columns(term, columns, left, right - 1, top, bottom);
    }
}

/// A quotient lies within the bounds that hold of the average.
pub proof fn lemma_quotient_bounded(total: int, count: int, lo: int, hi: int)
    requires
        count >= 1,
        lo <= 0 <= hi,
        lo * count <= total <= hi * count,
    ensures
        lo <= quotient(total, count) <= hi,
{
    if total >= 0 {
        vstd::arithmetic::div_mod::lemma_div_is_ordered(total, hi * count, count);
        vstd::arithmetic::div_mod::lemma_div_by_multiple(hi, count);
        vstd::arithmetic::div_mod::lemma_div_pos_is_pos(total, count);
    } else {
        assert(-total <= (-lo) * count) by (nonlinear_arith)
            requires
                lo * count <= total,
        ;
        vstd::arithmetic::div_mod::lemma_div_is_ordered(-total, (-lo) * count, count);
        vstd::arithmetic::div_mod::lemma_div_by_multiple(-lo, count);
        vstd::arithmetic::div_mod::lemma_div_pos_is_pos(-total, count);
    }
}

/// Adds up the squared distances from `center` over the rectangle.
fn spread(c1: i32, c2: i32, data_base: &[i32], n_cols: i32, center: i32) -> (total: i128)
    requires
        n_cols >= 1,
        1 <= c1 < data_base@.len(),
        1 <= c2 < data_base@.len(),
        column_of(c1 as int, n_cols as int) <= column_of(c2 as int, n_cols as int),
        row_of(c1 as int, n_cols as int) <= row_of(c2 as int, n_cols as int),
    ensures
        total == range_total(
            squared_distance(data_base@, center as int),
            c1 as int,
            c2 as int,
            n_cols as int,
        ),
        total >= 0,
{
    let (x1, y1) = coordinate_of(c1, n_cols);
    let (x2, y2) = coordinate_of(c2, n_cols);
    let ghost g1 = c1 as int;
    let ghost g2 = c2 as int;
    let ghost cols = n_cols as int;
    let ghost term = squared_distance(data_base@, center as int);
    proof {
        lemma_index_splits(g1, cols);
        lemma_index_splits(g2, cols);
    }
    let mut total: i128 = 0;
    let mut i: i64 = x1 as i64;
    while i <= x2 as i64
        invariant
            cols == n_cols,
            g1 == c1,
            g2 == c2,
            cols >= 1,
            1 <= g1 < data_base@.len(),
            1 <= g2 < data_base@.len(),
            term == squared_distance(data_base@, center as int),
            x1 == column_of(g1, cols),
            x2 == column_of(g2, cols),
            y1 == row_of(g1, cols),
            y2 == row_of(g2, cols),
            x1 <= x2,
            1 <= y1 <= y2,
            x1 <= i <= x2 + 1,
            0 <= total <= 0x1_0000_0000_0000_0000 * (0x8000_0000 * (i - x1)),
            total == rect_total(term, cols, x1 as int, i - 1, y1 as int, y2 as int),
        decreases x2 - i + 1,
    {
        let mut j: i64 = y1 as i64;
        while j <= y2 as i64
            invariant
                cols == n_cols,
                g1 == c1,
                g2 == c2,
                cols >= 1,
                1 <= g1 < data_base@.len(),
                1 <= g2 < data_base@.len(),
                term == squared_distance(data_base@, center as int),
                x1 == column_of(g1, cols),
                x2 == column_of(g2, cols),
                y1 == row_of(g1, cols),
                y2 == row_of(g2, cols),
                x1 <= i <= x2,
                1 <= y1 <= j <= y2 + 1,
                0 <= total <= 0x1_0000_0000_0000_0000 * (0x8000_0000 * (i - x1) + (j - y1)),
                total == rect_total(term, cols, x1 as int, i - 1, y1 as int, y2 as int)
                    + column_total(term, cols, i as int, y1 as int, j - 1),
            decreases y2 - j + 1,
        {
            proof {
                lemma_scan_step(g1, g2, cols, i as int, j as int);
                assert((j - 1) * cols >= 0) by (nonlinear_arith)
                    requires
                        j >= 1,
                        cols >= 1,
                ;
            }
            let ghost here = linear_index(i as int, j as int, cols);
            let at: usize = (i + (j - 1) * (n_cols as i64)) as usize;
            assert(at == here);
            let distance: i128 = data_base[at] as i128 - center as i128;
            assert(0 <= distance * distance <= 0x1_0000_0000_0000_0000) by (nonlinear_arith)
                requires
                    -0x1_0000_0000 <= distance <= 0x1_0000_0000,
            ;
            assert(term(here) == distance * distance);
            total = total + distance * distance;
            j = j + 1;
        }
        i = i + 1;
    }
    total
}

/// The least value in the rectangle with corners `c1` and `c2`, or
/// `i32::MAX` if the rectangle has no cell.  The error flag of `dest` is set
/// to whether any cell of the rectangle carries an error.
pub fn min(c1: i32, c2: i32, data_base: &[i32], n_cols: i32, err: &mut [bool], dest: i32) -> (least:
    i32)
    requires
        n_cols >= 1,
        1 <= c1 < data_base@.len(),
        1 <= c2 < data_base@.len(),
        old(err)@.len() == data_base@.len(),
        0 <= dest < data_base@.len(),
    ensures
        is_range_min(data_base@, c1 as int, c2 as int, n_cols as int, least as int),
        least == range_min(data_base@, c1 as int, c2 as int, n_cols as int),
        final(err)@ == old(err)@.update(
            dest as int,
            range_error(old(err)@, c1 as int, c2 as int, n_cols as int),
        ),
{
    let s = survey(c1, c2, data_base, n_cols, err);
    err[dest as usize] = s.flagged;
    proof {
        lemma_range_min_unique(
            data_base@,
            c1 as int,
            c2 as int,
            n_cols as int,
            s.least as int,
            range_min(data_base@, c1 as int, c2 as int, n_cols as int),
        );
    }
    s.least
}

/// The greatest value in the rectangle with corners `c1` and `c2`, or
/// `i32::MIN` if the rectangle has no cell.  The error flag of `dest` is set
/// to whether any cell of the rectangle carries an error.
pub fn max(c1: i32, c2: i32, data_base: &[i32], n_cols: i32, err: &mut [bool], dest: i32) -> (greatest:
    i32)
    requires
        n_cols >= 1,
        1 <= c1 < data_base@.len(),
        1 <= c2 < data_base@.len(),
        old(err)@.len() == data_base@.len(),
        0 <= dest < data_base@.len(),
    ensures
        is_range_max(data_base@, c1 as int, c2 as int, n_cols as int, greatest as int),
        greatest == range_max(data_base@, c1 as int, c2 as int, n_cols as int),
        final(err)@ == old(err)@.update(
            dest as int,
            range_error(old(err)@, c1 as int, c2 as int, n_cols as int),
        ),
{
    let s = survey(c1, c2, data_base, n_cols, err);
    err[dest as usize] = s.flagged;
    proof {
        lemma_range_max_unique(
            data_base@,
            c1 as int,
            c2 as int,
            n_cols as int,
            s.greatest as int,
            range_max(data_base@, c1 as int, c2 as int, n_cols as int),
        );
    }
    s.greatest
}

/// The sum of the values in the rectangle with corners `c1` and `c2`,
/// wrapped to 32 bits.  The error flag of `dest` is set to whether any cell of
/// the rectangle carries an error.
pub fn sum(c1: i32, c2: i32, data_base: &[i32], n_cols: i32, err: &mut [bool], dest: i32) -> (total:
    i32)
    requires
        n_cols >= 1,
        1 <= c1 < data_base@.len(),
        1 <= c2 < data_base@.len(),
        old(err)@.len() == data_base@.len(),
        0 <= dest < data_base@.len(),
    ensures
        total == wrap(range_sum(data_base@, c1 as int, c2 as int, n_cols as int)),
        final(err)@ == old(err)@.update(
            dest as int,
            range_error(old(err)@, c1 as int, c2 as int, n_cols as int),
        ),
{
    let s = survey(c1, c2, data_base, n_cols, err);
    err[dest as usize] = s.flagged;
    wrapped(s.total)
}

/// The mean of the values in the rectangle with corners `c1` and `c2`,
/// rounded toward zero.  The error flag of `dest` is set to whether any cell
/// of the rectangle carries an error.
pub fn avg(c1: i32, c2: i32, data_base: &[i32], n_cols: i32, err: &mut [bool], dest: i32) -> (mean:
    i32)
    requires
        n_cols >= 1,
        1 <= c1 < data_base@.len(),
        1 <= c2 < data_base@.len(),
        column_of(c1 as int, n_cols as int) <= column_of(c2 as int, n_cols as int),
        row_of(c1 as int, n_cols as int) <= row_of(c2 as int, n_cols as int),
        old(err)@.len() == data_base@.len(),
        0 <= dest < data_base@.len(),
    ensures
        mean == range_mean(data_base@, c1 as int, c2 as int, n_cols as int),
        final(err)@ == old(err)@.update(
            dest as int,
            range_error(old(err)@, c1 as int, c2 as int, n_cols as int),
        ),
{
    let s = survey(c1, c2, data_base, n_cols, err);
    err[dest as usize] = s.flagged;
    proof {
        lemma_count_positive(c1 as int, c2 as int, n_cols as int);
        lemma_quotient_bounded(s.total as int, s.count as int, i32::MIN as int, i32::MAX as int);
    }
    wide_quotient(s.total, s.count) as i32
}

/// The population standard deviation of the values in the rectangle with
/// corners `c1` and `c2`: the square root, rounded down, of the mean squared
/// distance from the rounded mean.  The error flag of `dest` is set to
/// whether any cell of the rectangle carries an error.
pub fn stdev(c1: i32, c2: i32, data_base: &[i32], n_cols: i32, err: &mut [bool], dest: i32) -> (deviation:
    i32)
    requires
        n_cols >= 1,
        1 <= c1 < data_base@.len(),
        1 <= c2 < data_base@.len(),
        column_of(c1 as int, n_cols as int) <= column_of(c2 as int, n_cols as int),
        row_of(c1 as int, n_cols as int) <= row_of(c2 as int, n_cols as int),
        old(err)@.len() == data_base@.len(),
        0 <= dest < data_base@.len(),
    ensures
        deviation == range_stdev(data_base@, c1 as int, c2 as int, n_cols as int),
        final(err)@ == old(err)@.update(
            dest as int,
            range_error(old(err)@, c1 as int, c2 as int, n_cols as int),
        ),
{
    let s = survey(c1, c2, data_base, n_cols, err);
    err[dest as usize] = s.flagged;
    proof {
        lemma_count_positive(c1 as int, c2 as int, n_cols as int);
        lemma_quotient_bounded(s.total as int, s.count as int, i32::MIN as int, i32::MAX as int);
    }
    let mean: i32 = wide_quotient(s.total, s.count) as i32;
    let squares: i128 = spread(c1, c2, data_base, n_cols, mean);
    let variance: i128 = squares / s.count;
    assert(0 <= variance) by (nonlinear_arith)
        requires
            variance == squares as int / s.count as int,
            squares >= 0,
            s.count >= 1,
    ;
    let root: u64 = isqrt(variance as u128);
    if root > 0x7fff_ffff {
        i32::MAX
    } else {
        root as i32
    }
}

/// A rectangle whose corners come in order holds at least one cell.
pub proof fn lemma_count_positive(c1: int, c2: int, columns: int)
    requires
        column_of(c1, columns) <= column_of(c2, columns),
        row_of(c1, columns) <= row_of(c2, columns),
    ensures
        range_count(c1, c2, columns) >= 1,
{
    let width = column_of(c2, columns) - column_of(c1, columns) + 1;
    let height = row_of(c2, columns) - row_of(c1, columns) + 1;
    assert(width * height >= 1) by (nonlinear_arith)
        requires
            width >= 1,
            height >= 1,
    ;
}


/// A sum over a column lies between the bounds of its terms, times the
/// number of its rows.
proof fn lemma_column_total_bounded(
    term: spec_fn(int) -> int,
    columns: int,
    col: int,
    top: int,
    bottom: int,
    lo: int,
    hi: int,
)
    requires
        top <= bottom + 1,
        forall|row: int|
            top <= row <= bottom ==> lo <= term(#[trigger] linear_index(col, row, columns)) <= hi,
    ensures
        lo * (bottom - top + 1) <= column_total(term, columns, col, top, bottom) <= hi * (bottom
            - top + 1),
    decreases bottom - top + 1,
{
    if bottom >= top {
        lemma_column_total_bounded(term, columns, col, top, bottom - 1, lo, hi);
        assert(lo <= term(linear_index(col, bottom, columns)) <= hi);
        assert(lo * (bottom - top + 1) == lo * (bottom - top) + lo) by (nonlinear_arith);
        assert(hi * (bottom - top + 1) == hi * (bottom - top) + hi) by (nonlinear_arith);
    } else {
        assert(lo * (bottom - top + 1) == 0 && hi * (bottom - top + 1) == 0) by (nonlinear_arith)
            requires
                bottom - top + 1 == 0,
        ;
    }
}

/// A sum over a rectangle lies between the bounds of its terms, times the
/// number of its cells.
proof fn lemma_rect_total_bounded(
    term: spec_fn(int) -> int,
    columns: int,
    left: int,
    right: int,
    top: int,
    bottom: int,
    lo: int,
    hi: int,
)
    requires
        left <= right + 1,
        top <= bottom + 1,
        forall|col: int, row: int|
            left <= col <= right && top <= row <= bottom ==> lo <= term(
                #[trigger] linear_index(col, row, columns),
            ) <= hi,
    ensures
        lo * ((right - left + 1) * (bottom - top + 1)) <= rect_total(
            term,
            columns,
            left,
            right,
            top,
            bottom,
        ) <= hi * ((right - left + 1) * (bottom - top + 1)),
    decreases right - left + 1,
{
    let height = bottom - top + 1;
    if right >= left {
        lemma_rect_total_bounded(term, columns, left, right - 1, top, bottom, lo, hi);
        lemma_column_total_bounded(term, columns, right, top, bottom, lo, hi);
        assert(lo * ((right - left + 1) * height) == lo * ((right - left) * height) + lo * height)
            by (nonlinear_arith);
        assert(hi * ((right - left + 1) * height) == hi * ((right - left) * height) + hi * height)
            by (nonlinear_arith);
    } else {
        assert(lo * ((right - left + 1) * height) == 0) by (nonlinear_arith)
            requires
                right - left + 1 == 0,
        ;
        assert(hi * ((right - left + 1) * height) == 0) by (nonlinear_arith)
            requires
                right - left + 1 == 0,
        ;
    }
}

/// A sum over a rectangle whose corners come in order lies between the
/// bounds of its terms, times the number of its cells.
pub proof fn lemma_range_total_bounded(
    term: spec_fn(int) -> int,
    c1: int,
    c2: int,
    columns: int,
    lo: int,
    hi: int,
)
    requires
        columns >= 1,
        c1 >= 1,
        c2 >= 1,
        column_of(c1, columns) <= column_of(c2, columns),
        row_of(c1, columns) <= row_of(c2, columns),
        forall|k: int| #[trigger] in_rect(k, c1, c2, columns) ==> lo <= term(k) <= hi,
    ensures
        lo * range_count(c1, c2, columns) <= range_total(term, c1, c2, columns) <= hi
            * range_count(c1, c2, columns),
{
    lemma_index_splits(c1, columns);
    lemma_index_splits(c2, columns);
    let left = column_of(c1, columns);
    let right = column_of(c2, columns);
    let top = row_of(c1, columns);
    let bottom = row_of(c2, columns);
    assert forall|col: int, row: int|
        left <= col <= right && top <= row <= bottom implies lo <= term(
        #[trigger] linear_index(col, row, columns),
    ) <= hi by {
        lemma_coordinate_round_trip(col, row, columns);
        assert(in_rect(linear_index(col, row, columns), c1, c2, columns));
    }
    lemma_rect_total_bounded(term, columns, left, right, top, bottom, lo, hi);
}


/// The values of the rows `top..=bottom` of column `col`, from the top down.
pub open spec fn column_values(
    values: Seq<i32>,
    columns: int,
    col: int,
    top: int,
    bottom: int,
) -> Seq<i32>
    decreases bottom - top + 1,
{
    if bottom < top {
        Seq::<i32>::empty()
    } else {
        column_values(values, columns, col, top, bottom - 1).push(
            values[linear_index(col, bottom, columns)],
        )
    }
}

/// The values of the columns `left..=right` and rows `top..=bottom`, column
/// after column.
pub open spec fn rect_values(
    values: Seq<i32>,
    columns: int,
    left: int,
    right: int,
    top: int,
    bottom: int,
) -> Seq<i32>
    decreases right - left + 1,
{
    if right < left {
        Seq::<i32>::empty()
    } else {
        rect_values(values, columns, left, right - 1, top, bottom) + column_values(
            values,
            columns,
            right,
            top,
            bottom,
        )
    }
}

/// The values in the rectangle with corners `c1` and `c2`, column after
/// column.
pub open spec fn range_values(values: Seq<i32>, c1: int, c2: int, columns: int) -> Seq<i32> {
    rect_values(
        values,
        columns,
        column_of(c1, columns),
        column_of(c2, columns),
        row_of(c1, columns),
        row_of(c2, columns),
    )
}

/// A rectangle without rows holds no values.
proof fn lemma_no_rows_no_values(
    values: Seq<i32>,
    columns: int,
    left: int,
    right: int,
    top: int,
    bottom: int,
)
    requires
        bottom < top,
    ensures
        rect_values(values, columns, left, right, top, bottom) == Seq::<i32>::empty(),
    decreases right - left + 1,
{
    if right >= left {
        lemma_no_rows_no_values(values, columns, left, right - 1, top, bottom);
        assert(rect_values(values, columns, left, right, top, bottom) =~= Seq::<i32>::empty());
    }
}

/// The values in the rectangle with corners `c1` and `c2`, column after
/// column.
pub fn values_in(c1: i32, c2: i32, data_base: &[i32], n_cols: i32) -> (picked: Vec<i32>)
    requires
        n_cols >= 1,
        1 <= c1 < data_base@.len(),
        1 <= c2 < data_base@.len(),
    ensures
        picked@ == range_values(data_base@, c1 as int, c2 as int, n_cols as int),
{
    let (x1, y1) = coordinate_of(c1, n_cols);
    let (x2, y2) = coordinate_of(c2, n_cols);
    let ghost g1 = c1 as int;
    let ghost g2 = c2 as int;
    let ghost cols = n_cols as int;
    let ghost values = data_base@;
    proof {
        lemma_index_splits(g1, cols);
        lemma_index_splits(g2, cols);
    }
    let mut picked: Vec<i32> = Vec::new();
    if x1 > x2 || y1 > y2 {
        proof {
            if y1 > y2 {
                lemma_no_rows_no_values(values, cols, x1 as int, x2 as int, y1 as int, y2 as int);
            }
        }
        return picked;
    }
    let mut i: i64 = x1 as i64;
    while i <= x2 as i64
        invariant
            cols == n_cols,
            g1 == c1,
            g2 == c2,
            cols >= 1,
            values == data_base@,
            1 <= g1 < data_base@.len(),
            1 <= g2 < data_base@.len(),
            x1 == column_of(g1, cols),
            x2 == column_of(g2, cols),
            y1 == row_of(g1, cols),
            y2 == row_of(g2, cols),
            x1 <= x2,
            1 <= y1 <= y2,
            x1 <= i <= x2 + 1,
            picked@ == rect_values(values, cols, x1 as int, i - 1, y1 as int, y2 as int),
        decreases x2 - i + 1,
    {
        let ghost left_part = picked@;
        let mut j: i64 = y1 as i64;
        while j <= y2 as i64
            invariant
                cols == n_cols,
                g1 == c1,
                g2 == c2,
                cols >= 1,
                values == data_base@,
                1 <= g1 < data_base@.len(),
                1 <= g2 < data_base@.len(),
                x1 == column_of(g1, cols),
                x2 == column_of(g2, cols),
                y1 == row_of(g1, cols),
                y2 == row_of(g2, cols),
                x1 <= i <= x2,
                1 <= y1 <= j <= y2 + 1,
                left_part == rect_values(values, cols, x1 as int, i - 1, y1 as int, y2 as int),
                picked@ == left_part + column_values(values, cols, i as int, y1 as int, j - 1),
            decreases y2 - j + 1,
        {
            proof {
                lemma_scan_step(g1, g2, cols, i as int, j as int);
                assert((j - 1) * cols >= 0) by (nonlinear_arith)
                    requires
                        j >= 1,
                        cols >= 1,
                ;
            }
            let at: usize = (i + (j - 1) * (n_cols as i64)) as usize;
            let ghost upper = column_values(values, cols, i as int, y1 as int, j - 1);
            picked.push(data_base[at]);
            proof {
                assert(picked@ =~= left_part + upper.push(values[at as int]));
            }
            j = j + 1;
        }
        i = i + 1;
    }
    picked
}


} // verus!
