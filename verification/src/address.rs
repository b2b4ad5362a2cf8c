//! Cell addressing.
//!
//! Cells live in flat storage under a 1-based linear index; index 0 is never
//! used.  The cell in column `c` and row `r` of a grid that is `columns` wide
//! has index `c + (r - 1) * columns`.

use crate::text::{
    find,
    is_upper,
    lemma_scan,
    parse_i32,
    parse_int,
    scan,
    to_chars,
    upper,
    Stop,
};
use vstd::prelude::*;

verus! {

/// The column (1-based) of the cell stored at `index`.
pub open spec fn column_of(index: int, columns: int) -> int {
    if index % columns == 0 {
        columns
    } else {
        index % columns
    }
}

/// The row (1-based) of the cell stored at `index`.
pub open spec fn row_of(index: int, columns: int) -> int {
    if index % columns == 0 {
        index / columns
    } else {
        index / columns + 1
    }
}

/// The linear index of the cell in column `col` and row `row`.
pub open spec fn linear_index(col: int, row: int, columns: int) -> int {
    col + (row - 1) * columns
}

/// Every index of a cell splits into a column within the grid's width and a
/// row, and is put together again from the two.
pub proof fn lemma_index_splits(index: int, columns: int)
    requires
        index >= 1,
        columns >= 1,
    ensures
        1 <= column_of(index, columns) <= columns,
        1 <= row_of(index, columns) <= index,
        linear_index(column_of(index, columns), row_of(index, columns), columns) == index,
{
    let q = index / columns;
    let r = index % columns;
    assert(index == columns * q + r && 0 <= r < columns) by {
        vstd::arithmetic::div_mod::lemma_fundamental_div_mod(index, columns);
    }
    assert(q >= 0 && q <= index) by (nonlinear_arith)
        requires
            index == columns * q + r,
            0 <= r < columns,
            columns >= 1,
            index >= 1,
    ;
    if r == 0 {
        assert(q >= 1) by (nonlinear_arith)
            requires
                index == columns * q,
                index >= 1,
                columns >= 1,
        ;
        assert(columns + (q - 1) * columns == columns * q) by (nonlinear_arith);
    } else {
        assert(r + (q + 1 - 1) * columns == columns * q + r) by (nonlinear_arith);
        assert(q + 1 <= index) by (nonlinear_arith)
            requires
                index == columns * q + r,
                r >= 1,
                q >= 0,
                columns >= 1,
        ;
    }
}

/// Round trip: the coordinates recovered from the linear index of
/// `(col, row)` are `(col, row)` again.
pub proof fn lemma_coordinate_round_trip(col: int, row: int, columns: int)
    requires
        1 <= col <= columns,
        1 <= row,
    ensures
        linear_index(col, row, columns) >= 1,
        column_of(linear_index(col, row, columns), columns) == col,
        row_of(linear_index(col, row, columns), columns) == row,
{
    let index = linear_index(col, row, columns);
    assert((row - 1) * columns >= 0) by (nonlinear_arith)
        requires
            row >= 1,
            columns >= 1,
    ;
    if col == columns {
        assert(index == row * columns) by (nonlinear_arith)
            requires
                index == columns + (row - 1) * columns,
        ;
        vstd::arithmetic::div_mod::lemma_fundamental_div_mod_converse(index, columns, row, 0);
    } else {
        assert(index == (row - 1) * columns + col);
        vstd::arithmetic::div_mod::lemma_fundamental_div_mod_converse(
            index,
            columns,
            row - 1,
            col,
        );
    }
}

/// Moving right or down inside the grid never lowers the linear index.
pub proof fn lemma_linear_index_monotonic(
    col: int,
    row: int,
    col2: int,
    row2: int,
    columns: int,
)
    requires
        col <= col2,
        row <= row2,
        columns >= 0,
    ensures
        linear_index(col, row, columns) <= linear_index(col2, row2, columns),
{
    assert((row - 1) * columns <= (row2 - 1) * columns) by (nonlinear_arith)
        requires
            row <= row2,
            columns >= 0,
    ;
}

/// The larger of two integers.
pub fn max(a: i32, b: i32) -> (m: i32)
    ensures
        m == if a > b { a } else { b },
{
    if a > b {
        a
    } else {
        b
    }
}

/// The smaller of two integers.
pub fn min(a: i32, b: i32) -> (m: i32)
    ensures
        m == if a < b { a } else { b },
{
    if a < b {
        a
    } else {
        b
    }
}

/// Recovers `(column, row)` from a linear index.
pub fn coordinate_of(index: i32, columns: i32) -> (at: (i32, i32))
    requires
        index >= 0,
        columns >= 1,
    ensures
        at.0 == column_of(index as int, columns as int),
        at.1 == row_of(index as int, columns as int),
{
    let rem: i32 = index % columns;
    let quot: i32 = index / columns;
    assert(0 <= quot <= index) by (nonlinear_arith)
        requires
            quot == index as int / columns as int,
            index >= 0,
            columns >= 1,
    ;
    if rem == 0 {
        (columns, quot)
    } else {
        proof {
            if index >= 1 {
                lemma_index_splits(index as int, columns as int);
            }
        }
        (rem, quot + 1)
    }
}

/// The linear index of the cell in column `col` and row `row`.
pub fn linear_index_of(col: i32, row: i32, columns: i32) -> (index: i32)
    requires
        1 <= col <= columns,
        1 <= row,
        linear_index(col as int, row as int, columns as int) <= i32::MAX,
    ensures
        index == linear_index(col as int, row as int, columns as int),
{
    proof {
        assert(0 <= (row - 1) * columns) by (nonlinear_arith)
            requires
                row >= 1,
                columns >= 1,
        ;
    }
    let below: i64 = (row as i64 - 1) * (columns as i64);
    (col as i64 + below) as i32
}

/// The number that the capital letters `s` write in the bijective base 26 of
/// column labels: `A` is 1, `Z` is 26, `AA` is 27.
pub open spec fn base26(s: Seq<char>) -> int
    decreases s.len(),
{
    if s.len() == 0 {
        0
    } else {
        base26(s.drop_last()) * 26 + (s.last() as int - 'A' as int + 1)
    }
}

/// The column that a label names: what its leading capital letters write.
pub open spec fn label_column(s: Seq<char>) -> int {
    base26(s.take(scan(s, 0, Stop::NotUpper)))
}

/// The row that a label names: the number written after its leading
/// letters, or 0 if no number is written there.
pub open spec fn label_row(s: Seq<char>) -> int {
    match parse_int(s.skip(scan(s, 0, Stop::NotLetter))) {
        Some(row) => row,
        None => 0,
    }
}

/// The packed coordinate of a label: the column times 1000, plus the row.
pub open spec fn packed(s: Seq<char>) -> int {
    label_column(s) * 1000 + label_row(s)
}

/// The linear index of the cell with the packed coordinate `a`.
pub open spec fn index_of_packed(a: int, columns: int) -> int {
    a / 1000 + (a % 1000 - 1) * columns
}

/// The linear index of the cell that a label names.
pub open spec fn cell_index(s: Seq<char>, columns: int) -> int {
    index_of_packed(packed(s), columns)
}

/// A column is no smaller than what its leading letters write.
pub proof fn lemma_base26_grows(s: Seq<char>, k: int)
    requires
        forall|i: int| 0 <= i < s.len() ==> is_upper(#[trigger] s[i]),
        0 <= k <= s.len(),
    ensures
        0 <= base26(s.take(k)) <= base26(s),
    decreases s.len() - k,
{
    if k < s.len() {
        lemma_base26_grows(s, k + 1);
        assert(s.take(k + 1).drop_last() =~= s.take(k));
        assert(is_upper(s[k]));
        lemma_base26_nonnegative(s.take(k));
    } else {
        assert(s.take(k) =~= s);
        lemma_base26_nonnegative(s);
    }
}

/// Capital letters write no negative column.
proof fn lemma_base26_nonnegative(s: Seq<char>)
    requires
        forall|i: int| 0 <= i < s.len() ==> is_upper(#[trigger] s[i]),
    ensures
        base26(s) >= 0,
    decreases s.len(),
{
    if s.len() > 0 {
        assert(is_upper(s[s.len() - 1]));
        lemma_base26_nonnegative(s.drop_last());
    }
}

/// The column and the row that a label names.  A column beyond `u32::MAX` is
/// reported as some number beyond `u32::MAX`.
pub fn label_parts(chars: &[char]) -> (parts: (i64, i32))
    ensures
        parts.1 == label_row(chars@),
        parts.0 == label_column(chars@) || (parts.0 > u32::MAX && label_column(chars@) > u32::MAX),
        0 <= parts.0 <= 0xffff_ffff * 26 + 26,
{
    let letters: usize = find(chars, 0, Stop::NotLetter);
    let capitals: usize = find(chars, 0, Stop::NotUpper);
    let ghost run = chars@.take(capitals as int);
    proof {
        lemma_scan(chars@, 0, Stop::NotUpper);
        assert(chars@.skip(letters as int) =~= chars@.subrange(letters as int, chars@.len() as int));
        assert(run.take(0) =~= Seq::<char>::empty());
    }
    let row: i32 = match parse_i32(chars, letters, chars.len()) {
        Some(row) => row,
        None => 0,
    };
    let mut col: i64 = 0;
    let mut i: usize = 0;
    while i < capitals
        invariant
            i <= capitals <= chars@.len(),
            capitals == scan(chars@, 0, Stop::NotUpper),
            row == label_row(chars@),
            run == chars@.take(capitals as int),
            forall|j: int| 0 <= j < run.len() ==> is_upper(#[trigger] run[j]),
            col == base26(run.take(i as int)),
            0 <= col <= u32::MAX,
        decreases capitals - i,
    {
        let c: char = chars[i];
        proof {
            assert(run[i as int] == c);
            assert(run.take(i + 1).drop_last() =~= run.take(i as int));
            assert(run.take(i + 1).last() == c);
        }
        col = col * 26 + (c as i64 - 'A' as i64 + 1);
        if col > 0xffff_ffff {
            proof {
                lemma_base26_grows(run, i + 1);
            }
            return (col, row);
        }
        i = i + 1;
    }
    proof {
        assert(run.take(capitals as int) =~= run);
    }
    (col, row)
}

/// The packed coordinate of a label: `A1` gives 1001, `AA12` gives 27012.
pub fn cell_to_int(a: &str) -> (packed_coordinate: i32)
    requires
        packed(a@) <= i32::MAX,
    ensures
        packed_coordinate == packed(a@),
{
    let chars = to_chars(a);
    let (col, row) = label_parts(chars.as_slice());
    (col * 1000 + row as i64) as i32
}

/// The linear index of the cell with the packed coordinate `a` in a grid
/// that is `len_h` wide.
pub fn int_to_ind(a: i32, len_h: i32) -> (index: i32)
    requires
        a >= 0,
        i32::MIN <= index_of_packed(a as int, len_h as int) <= i32::MAX,
    ensures
        index == index_of_packed(a as int, len_h as int),
{
    let col: i64 = (a / 1000) as i64;
    let row: i64 = (a % 1000) as i64;
    assert(-1000 * 0x8000_0000 <= (row - 1) * len_h <= 1000 * 0x8000_0000) by (nonlinear_arith)
        requires
            0 <= row < 1000,
            -0x8000_0000 <= len_h <= 0x7fff_ffff,
    ;
    (col + (row - 1) * (len_h as i64)) as i32
}

/// The linear index of the cell that a label names in a grid that is `len_h`
/// wide.
pub fn cell_to_ind(a: &str, len_h: i32) -> (index: i32)
    requires
        0 <= packed(a@) <= i32::MAX,
        i32::MIN <= cell_index(a@, len_h as int) <= i32::MAX,
    ensures
        index == cell_index(a@, len_h as int),
{
    int_to_ind(cell_to_int(a), len_h)
}


/// `x` as a signed byte: the number in `-128..=127` that differs from `x` by
/// a multiple of 256.
pub open spec fn signed_byte(x: int) -> int {
    let b = x % 256;
    if b > 127 {
        b - 256
    } else {
        b
    }
}

/// The code of the character that lies `i` places after `c`, both taken as
/// signed bytes and the result as an unsigned one.
pub open spec fn shifted_code(c: char, i: int) -> int {
    (signed_byte(c as int) + signed_byte(i)) % 256
}

/// The character that lies `i` places after `c` in the code table.
pub fn shift_char(c: char, i: i32) -> (shifted: char)
    requires
        -128 <= signed_byte(c as int) + signed_byte(i as int) <= 127,
    ensures
        shifted as int == shifted_code(c, i as int),
{
    let low: i64 = (c as u32 % 256) as i64;
    let from: i64 = if low > 127 {
        low - 256
    } else {
        low
    };
    let step_low: i64 = (i as i64 + 0x8000_0000) % 256;
    assert(step_low == (i as int) % 256) by {
        vstd::arithmetic::div_mod::lemma_mod_multiples_vanish(0x80_0000, i as int, 256);
    }
    let step: i64 = if step_low > 127 {
        step_low - 256
    } else {
        step_low
    };
    let sum: i64 = from + step;
    let code: i64 = if sum < 0 {
        sum + 256
    } else {
        sum
    };
    assert(code == sum as int % 256) by {
        if sum < 0 {
            vstd::arithmetic::div_mod::lemma_fundamental_div_mod_converse(
                sum as int,
                256,
                -1,
                code as int,
            );
        } else {
            vstd::arithmetic::div_mod::lemma_small_mod(sum as nat, 256);
        }
    }
    code as u8 as char
}

/// The capital letter number `k`, counted from 0.
pub open spec fn capital(k: int) -> char {
    ('A' as int + k) as char
}

/// The label of the column `a`: `A` to `Z` for 1 to 26, `AA` to `ZZ` for 27
/// to 702, `AAA` to `ZZZ` for 703 to 18278, and nothing for any other number.
pub open spec fn label_of(a: int) -> Seq<char> {
    let num = a - 1;
    if 0 <= num <= 25 {
        seq![capital(num)]
    } else if 26 <= num <= 701 {
        seq![capital((num - 26) / 26), capital((num - 26) % 26)]
    } else if 702 <= num <= 18277 {
        seq![
            capital((num - 702) / 26 / 26),
            capital((num - 702) / 26 % 26),
            capital((num - 702) % 26),
        ]
    } else {
        Seq::<char>::empty()
    }
}

/// The capital letter number `k`, counted from 0.
fn capital_letter(k: i32) -> (c: char)
    requires
        0 <= k <= 25,
    ensures
        c == capital(k as int),
{
    assert(signed_byte('A' as int) == 65 && signed_byte(k as int) == k && (65 + k) % 256 == 65 + k);
    shift_char('A', k)
}

/// The label of the column `a`.
pub fn get_label(a: i32) -> (label: String)
    ensures
        label@ == label_of(a as int),
{
    let mut temp = String::new();
    let num: i64 = a as i64 - 1;
    if 0 <= num && num <= 25 {
        temp.push(capital_letter(num as i32));
        assert(temp@ =~= label_of(a as int));
    } else if 26 <= num && num <= 701 {
        let rest: i64 = num - 26;
        temp.push(capital_letter((rest / 26) as i32));
        temp.push(capital_letter((rest % 26) as i32));
        assert(temp@ =~= label_of(a as int));
    } else if 702 <= num && num <= 18277 {
        let rest: i64 = num - 702;
        let last: char = capital_letter((rest % 26) as i32);
        let upper: i64 = rest / 26;
        temp.push(capital_letter((upper / 26) as i32));
        temp.push(capital_letter((upper % 26) as i32));
        temp.push(last);
        assert(temp@ =~= label_of(a as int));
    } else {
        assert(temp@ =~= label_of(a as int));
    }
    temp
}

/// Round trip: the label of a column names that column.
pub proof fn lemma_label_round_trip(a: int)
    requires
        1 <= a <= 18278,
    ensures
        label_column(label_of(a)) == a,
{
    let s = label_of(a);
    assert forall|i: int| 0 <= i < s.len() implies is_upper(#[trigger] s[i]) by {}
    lemma_scan(s, 0, Stop::NotUpper);
    let end = scan(s, 0, Stop::NotUpper);
    if end < s.len() {
        assert(is_upper(s[end]));
    }
    assert(s.take(end) =~= s);
    let num = a - 1;
    if s.len() == 1 {
        assert(s.drop_last() =~= Seq::<char>::empty());
        assert(base26(s) == base26(s.drop_last()) * 26 + (s[0] as int - 'A' as int + 1));
    } else if s.len() == 2 {
        let one = seq![s[0]];
        assert(s.drop_last() =~= one);
        assert(one.drop_last() =~= Seq::<char>::empty());
        assert(base26(one) == base26(one.drop_last()) * 26 + (s[0] as int - 'A' as int + 1));
        assert(base26(s) == base26(one) * 26 + (s[1] as int - 'A' as int + 1));
        vstd::arithmetic::div_mod::lemma_fundamental_div_mod(num - 26, 26);
    } else {
        let two = seq![s[0], s[1]];
        let one = seq![s[0]];
        assert(s.drop_last() =~= two);
        assert(two.drop_last() =~= one);
        assert(one.drop_last() =~= Seq::<char>::empty());
        assert(base26(one) == base26(one.drop_last()) * 26 + (s[0] as int - 'A' as int + 1));
        assert(base26(two) == base26(one) * 26 + (s[1] as int - 'A' as int + 1));
        assert(base26(s) == base26(two) * 26 + (s[2] as int - 'A' as int + 1));
        vstd::arithmetic::div_mod::lemma_fundamental_div_mod(num - 702, 26);
        vstd::arithmetic::div_mod::lemma_fundamental_div_mod((num - 702) / 26, 26);
    }
}


} // verus!
