//! Command lines.
//!
//! A command line is either `scroll_to <cell>` or `<cell>=<formula>`, where a
//! formula is a number, a cell, two of these joined by one of `+ - * /`, or a
//! function applied to a cell, a number or a range: `SUM(A1:B3)`,
//! `SLEEP(2)`.  A line is first split into its parts and then checked.

use crate::address::{label_parts, packed};
use crate::operation::{code_of, OpCode, Slot};
use crate::text::{
    all_digits,
    cut,
    digits_from,
    find,
    is_upper,
    lemma_scan_misses,
    piece,
    scan,
    to_chars,
    upper,
    Stop,
};
use vstd::prelude::*;
use vstd::string::*;

verus! {

/// The text is made of decimal digits, with any number of signs in front.
pub open spec fn is_integer_text(s: Seq<char>) -> bool {
    all_digits(s.skip(scan(s, 0, Stop::NotSign)))
}

/// The text is a capital letter, then more capital letters, then one
/// character that is none, then decimal digits only.
pub open spec fn well_shaped(s: Seq<char>) -> bool {
    &&& s.len() >= 2
    &&& is_upper(s[0])
    &&& scan(s, 1, Stop::NotUpper) < s.len()
    &&& all_digits(s.skip(scan(s, 1, Stop::NotUpper) + 1))
}

/// The packed coordinate `k` names a cell of a grid of the given size.
pub open spec fn in_bounds(k: int, columns: int, rows: int) -> bool {
    0 < k % 1000 <= rows && 0 < k / 1000 <= columns
}

/// The text is the label of a cell of a grid of the given size.
pub open spec fn is_valid_label(s: Seq<char>, columns: int, rows: int) -> bool {
    well_shaped(s) && in_bounds(packed(s), columns, rows)
}

/// The two texts name cells of a grid of the given size, the second neither
/// left of nor above the first.
pub open spec fn is_valid_span(s1: Seq<char>, s2: Seq<char>, columns: int, rows: int) -> bool {
    &&& in_bounds(packed(s1), columns, rows)
    &&& in_bounds(packed(s2), columns, rows)
    &&& packed(s1) % 1000 <= packed(s2) % 1000
    &&& packed(s1) / 1000 <= packed(s2) / 1000
}

/// A packed coordinate in the bounds of a grid is that of a cell of the grid:
/// its linear index lies between 1 and the number of cells.
pub proof fn lemma_in_bounds_names_cell(k: int, columns: int, rows: int)
    requires
        in_bounds(k, columns, rows),
    ensures
        1 <= crate::address::index_of_packed(k, columns) <= columns * rows,
        crate::address::column_of(crate::address::index_of_packed(k, columns), columns) == k / 1000,
        crate::address::row_of(crate::address::index_of_packed(k, columns), columns) == k % 1000,
{
    let col = k / 1000;
    let row = k % 1000;
    crate::address::lemma_coordinate_round_trip(col, row, columns);
    assert(col + (row - 1) * columns <= columns * rows) by (nonlinear_arith)
        requires
            1 <= col <= columns,
            1 <= row <= rows,
    ;
}

/// The parts of a command line.
pub struct Parts {
    /// The cell that the command is about.
    pub target: Seq<char>,
    /// The code of the operation.
    pub code: Seq<char>,
    /// The first operand.
    pub first: Seq<char>,
    /// The second operand.
    pub second: Seq<char>,
}

/// `V` for an operand that is a number, `C` for any other.
pub open spec fn kind_letter(operand: Seq<char>) -> char {
    if is_integer_text(operand) {
        'V'
    } else {
        'C'
    }
}

/// The letter that stands for an operator in a code.
pub open spec fn operator_letter(c: char) -> char {
    if c == '+' {
        'A'
    } else if c == '-' {
        'S'
    } else if c == '*' {
        'M'
    } else if c == '/' {
        'D'
    } else {
        c
    }
}

/// The parts of a line without `=`: what follows the first blank is the cell
/// to scroll to.
pub open spec fn scroll_parts(s: Seq<char>) -> Parts {
    Parts {
        target: piece(s, scan(s, 0, Stop::At(' ')) + 1, s.len() as int),
        code: seq!['S', 'R', 'L'],
        first: Seq::<char>::empty(),
        second: Seq::<char>::empty(),
    }
}

/// The parts of a line `<cell>=<formula>` without `(`, whose `=` stands at
/// `eq`.  The first operand starts after the blanks that follow `=` and ends
/// before the first operator behind its first character; the second is what
/// follows the operator and its blanks.  A line that lacks an operand it
/// needs has no code.
pub open spec fn arithmetic_parts(s: Seq<char>, eq: int) -> Parts {
    let target = piece(s, 0, eq);
    let start = scan(s, eq + 1, Stop::Not(' '));
    let sign = scan(s, start + 1, Stop::Operator);
    let first = piece(s, start, sign);
    let from = scan(s, sign + 1, Stop::Not(' '));
    let second = piece(s, from, s.len() as int);
    if start >= s.len() {
        Parts { target, code: Seq::<char>::empty(), first, second }
    } else if sign >= s.len() {
        Parts { target, code: seq!['E', 'Q', kind_letter(first)], first, second }
    } else if second.len() == 0 {
        Parts { target, code: Seq::<char>::empty(), first, second }
    } else {
        Parts {
            target,
            code: seq![kind_letter(first), kind_letter(second), operator_letter(s[sign])],
            first,
            second,
        }
    }
}

/// The code that the name of a function stands for.
pub open spec fn function_code(name: Seq<char>, first: Seq<char>) -> Seq<char> {
    if name == "SLEEP"@ || name == "SL"@ {
        seq!['S', 'L', kind_letter(first)]
    } else if name == "STDEV"@ {
        "STD"@
    } else if name == "AVG"@ {
        "MEA"@
    } else {
        name
    }
}

/// The parts of a line `<cell>=<name>(...)`, whose `=` stands at `eq`.  The
/// name starts after the blanks that follow `=` and ends before `(`.  The
/// operand of `SLEEP` ends before `)`; the operands of any other function are
/// parted by `:`, and the second ends before `)`.
pub open spec fn function_parts(s: Seq<char>, eq: int) -> Parts {
    let target = piece(s, 0, eq);
    let start = scan(s, eq + 1, Stop::Not(' '));
    let paren = scan(s, start, Stop::At('('));
    let name = piece(s, start, paren);
    if name == "SLEEP"@ {
        let first = piece(s, paren + 1, scan(s, paren + 1, Stop::At(')')));
        Parts { target, code: function_code(name, first), first, second: Seq::<char>::empty() }
    } else {
        let colon = scan(s, paren + 1, Stop::At(':'));
        let first = piece(s, paren + 1, colon);
        let second = piece(s, colon + 1, scan(s, colon + 1, Stop::At(')')));
        Parts { target, code: function_code(name, first), first, second }
    }
}

/// The parts of a command line.
pub open spec fn command_parts(s: Seq<char>) -> Parts {
    if !s.contains('=') {
        scroll_parts(s)
    } else if !s.contains('(') {
        arithmetic_parts(s, scan(s, 0, Stop::At('=')))
    } else {
        function_parts(s, scan(s, 0, Stop::At('=')))
    }
}

/// What the check of a command line finds.
#[derive(Clone, Copy, Debug, PartialEq, Eq, Structural)]
pub enum Verdict {
    Accepted,
    InvalidOperation,
    ScrollOutOfBounds,
    AssignedOutOfBounds,
    InvalidCell,
    InvalidRange,
}

/// The message that stands for a verdict.
pub open spec fn message_of(verdict: Verdict) -> Seq<char> {
    match verdict {
        Verdict::Accepted => "ok"@,
        Verdict::InvalidOperation => "Invalid Operation"@,
        Verdict::ScrollOutOfBounds => "Scroll Cell out of bounds"@,
        Verdict::AssignedOutOfBounds => "Assigned Cell out of bounds"@,
        Verdict::InvalidCell => "Invalid Cell"@,
        Verdict::InvalidRange => "Invalid Range"@,
    }
}

/// The first word of the line, which ends before the first blank.
pub open spec fn first_word(s: Seq<char>) -> Seq<char> {
    piece(s, 0, scan(s, 0, Stop::At(' ')))
}

/// What the check of the parts of a command line finds, in a grid of the
/// given size.  A code that does not take three bytes is no operation.  A
/// scroll needs the word `scroll_to` and a cell of the grid.  Any other
/// command needs a target in the grid, a known code, and cells of the grid
/// wherever the code reads a cell; the corners of a range come in order.
pub open spec fn verdict_of(
    line: Seq<char>,
    parts: Parts,
    columns: int,
    rows: int,
) -> Verdict {
    if vstd::utf8::encode_utf8(parts.code).len() != 3 {
        Verdict::InvalidOperation
    } else if code_of(parts.code) == OpCode::Scroll {
        if first_word(line) != "scroll_to"@ {
            Verdict::InvalidOperation
        } else if !is_valid_label(parts.target, columns, rows) {
            Verdict::ScrollOutOfBounds
        } else {
            Verdict::Accepted
        }
    } else if !is_valid_label(parts.target, columns, rows) {
        Verdict::AssignedOutOfBounds
    } else {
        match code_of(parts.code) {
            OpCode::SleepCell | OpCode::AssignCell => if is_valid_label(
                parts.first,
                columns,
                rows,
            ) {
                Verdict::Accepted
            } else {
                Verdict::InvalidCell
            },
            OpCode::SleepValue | OpCode::AssignValue => Verdict::Accepted,
            OpCode::Range(_) => if is_valid_span(parts.first, parts.second, columns, rows) {
                Verdict::Accepted
            } else {
                Verdict::InvalidRange
            },
            OpCode::Arith(first, second, _) => if first == Slot::Cell && !is_valid_label(
                parts.first,
                columns,
                rows,
            ) {
                Verdict::InvalidCell
            } else if second == Slot::Cell && !is_valid_label(parts.second, columns, rows) {
                Verdict::InvalidCell
            } else {
                Verdict::Accepted
            },
            _ => Verdict::InvalidOperation,
        }
    }
}

/// Whether the line holds no `(`, which makes it no call of a function.
pub fn is_arth(input: &str) -> (b: bool)
    ensures
        b == !input@.contains('('),
{
    let chars = to_chars(input);
    proof {
        lemma_scan_misses(chars@, '(');
    }
    find(chars.as_slice(), 0, Stop::At('(')) == chars.len()
}

/// Whether the line holds no `=`, which makes it a scroll.
pub fn is_scroll(input: &str) -> (b: bool)
    ensures
        b == !input@.contains('='),
{
    let chars = to_chars(input);
    proof {
        lemma_scan_misses(chars@, '=');
    }
    find(chars.as_slice(), 0, Stop::At('=')) == chars.len()
}

/// Whether the text counts as a number: decimal digits, with any number of
/// signs in front.
pub fn is_integer(input: &str) -> (b: bool)
    ensures
        b == is_integer_text(input@),
{
    let chars = to_chars(input);
    assert(piece(chars@, 0, chars@.len() as int) =~= input@);
    numeric(chars.as_slice(), 0, chars.len())
}

/// Whether `chars[from..to]` counts as a number.
fn numeric(chars: &[char], from: usize, to: usize) -> (b: bool)
    ensures
        b == is_integer_text(piece(chars@, from as int, to as int)),
{
    let ghost s = piece(chars@, from as int, to as int);
    if !(from <= to && to <= chars.len()) {
        proof {
            assert(s.skip(scan(s, 0, Stop::NotSign)) =~= Seq::<char>::empty());
        }
        return true;
    }
    let mut i: usize = from;
    while i < to && (chars[i] == '+' || chars[i] == '-')
        invariant
            from <= i <= to <= chars@.len(),
            s == chars@.subrange(from as int, to as int),
            scan(s, 0, Stop::NotSign) == scan(s, i - from, Stop::NotSign),
        decreases to - i,
    {
        assert(s[i - from] == chars@[i as int]);
        i = i + 1;
    }
    proof {
        if i < to {
            assert(s[i - from] == chars@[i as int]);
        }
        assert(scan(s, 0, Stop::NotSign) == i - from);
    }
    let ghost rest = s.skip(i - from);
    let mut j: usize = i;
    while j < to
        invariant
            from <= i <= j <= to <= chars@.len(),
            s == chars@.subrange(from as int, to as int),
            s == piece(chars@, from as int, to as int),
            rest == s.skip(i - from),
            rest == s.skip(scan(s, 0, Stop::NotSign)),
            forall|k: int| 0 <= k < j - i ==> crate::text::is_digit(#[trigger] rest[k]),
        decreases to - j,
    {
        if !crate::text::digit(chars[j]) {
            assert(rest[j - i] == chars@[j as int]);
            assert(!all_digits(rest));
            return false;
        }
        j = j + 1;
    }
    true
}

/// Whether the column and row of a label lie in a grid of the given size.
fn bounded(col: i64, row: i32, len_h: i32, len_v: i32) -> (b: bool)
    requires
        0 <= col <= 0xffff_ffff * 26 + 26,
    ensures
        col <= u32::MAX ==> b == in_bounds(col * 1000 + row, len_h as int, len_v as int),
        col > u32::MAX ==> !b,
{
    let k: i64 = col * 1000 + row as i64;
    if k < 0 {
        return false;
    }
    let r: i64 = k % 1000;
    let c: i64 = k / 1000;
    r > 0 && r <= len_v as i64 && c > 0 && c <= len_h as i64
}

/// The packed coordinate of a label beyond `u32::MAX` columns lies in no
/// grid.
proof fn lemma_far_column(col: int, row: int, columns: int, rows: int)
    requires
        col > u32::MAX,
        i32::MIN <= row <= i32::MAX,
        columns <= i32::MAX,
    ensures
        !in_bounds(col * 1000 + row, columns, rows),
{
    let k = col * 1000 + row;
    assert(k >= 0x8000_0000 * 1000);
    vstd::arithmetic::div_mod::lemma_div_is_ordered(0x8000_0000 * 1000int, k, 1000);
}

/// Whether the text is the label of a cell of a grid that is `len_h` wide
/// and `len_v` high.
pub fn is_valid_cell(cell: &str, len_h: i32, len_v: i32) -> (b: bool)
    ensures
        b == is_valid_label(cell@, len_h as int, len_v as int),
{
    let chars = to_chars(cell);
    valid_label(chars.as_slice(), len_h, len_v)
}

/// [`is_valid_cell`] on characters.
fn valid_label(chars: &[char], len_h: i32, len_v: i32) -> (b: bool)
    ensures
        b == is_valid_label(chars@, len_h as int, len_v as int),
{
    if chars.len() < 2 {
        return false;
    }
    if !upper(chars[0]) {
        return false;
    }
    let stop: usize = find(chars, 1, Stop::NotUpper);
    if stop >= chars.len() {
        return false;
    }
    if !digits_from(chars, stop + 1) {
        return false;
    }
    let (col, row) = label_parts(chars);
    proof {
        if col > u32::MAX {
            lemma_far_column(
                crate::address::label_column(chars@),
                row as int,
                len_h as int,
                len_v as int,
            );
        }
    }
    bounded(col, row, len_h, len_v)
}

/// Whether the two texts name the top-left and the bottom-right corner of a
/// range in a grid that is `len_h` wide and `len_v` high.
pub fn is_valid_range(cell1: &str, cell2: &str, len_h: i32, len_v: i32) -> (b: bool)
    ensures
        b == is_valid_span(cell1@, cell2@, len_h as int, len_v as int),
{
    let first = to_chars(cell1);
    let second = to_chars(cell2);
    valid_span(first.as_slice(), second.as_slice(), len_h, len_v)
}

/// [`is_valid_range`] on characters.
fn valid_span(first: &[char], second: &[char], len_h: i32, len_v: i32) -> (b: bool)
    ensures
        b == is_valid_span(first@, second@, len_h as int, len_v as int),
{
    let (c1, r1) = label_parts(first);
    let (c2, r2) = label_parts(second);
    proof {
        if c1 > u32::MAX {
            lemma_far_column(
                crate::address::label_column(first@),
                r1 as int,
                len_h as int,
                len_v as int,
            );
        }
        if c2 > u32::MAX {
            lemma_far_column(
                crate::address::label_column(second@),
                r2 as int,
                len_h as int,
                len_v as int,
            );
        }
    }
    if !bounded(c1, r1, len_h, len_v) || !bounded(c2, r2, len_h, len_v) {
        return false;
    }
    let k1: i64 = c1 * 1000 + r1 as i64;
    let k2: i64 = c2 * 1000 + r2 as i64;
    assert(k1 >= 0 && k2 >= 0) by {
        if k1 < 0 {
            assert(k1 as int / 1000 < 0);
        }
        if k2 < 0 {
            assert(k2 as int / 1000 < 0);
        }
    }
    k1 % 1000 <= k2 % 1000 && k1 / 1000 <= k2 / 1000
}

/// Whether `chars[from..to]` is the given word.
fn same_text(chars: &[char], from: usize, to: usize, word: &str) -> (b: bool)
    ensures
        b == (piece(chars@, from as int, to as int) == word@),
{
    let wanted = to_chars(word);
    let ghost s = piece(chars@, from as int, to as int);
    if !(from <= to && to <= chars.len()) {
        assert(wanted@.len() == 0 ==> wanted@ =~= s);
        return wanted.len() == 0;
    }
    if to - from != wanted.len() {
        return false;
    }
    let mut i: usize = 0;
    while i < wanted.len()
        invariant
            from <= to <= chars@.len(),
            to - from == wanted@.len(),
            i <= wanted@.len(),
            s == chars@.subrange(from as int, to as int),
            wanted@ == word@,
            forall|k: int| 0 <= k < i ==> s[k] == wanted@[k],
        decreases wanted@.len() - i,
    {
        if chars[from + i] != wanted[i] {
            assert(s[i as int] != wanted@[i as int]);
            return false;
        }
        i = i + 1;
    }
    assert(s =~= wanted@);
    true
}

/// The letter that stands for the kind of the operand `chars[from..to]`.
fn kind_of(chars: &[char], from: usize, to: usize) -> (c: char)
    ensures
        c == kind_letter(piece(chars@, from as int, to as int)),
{
    if numeric(chars, from, to) {
        'V'
    } else {
        'C'
    }
}

/// The four parts as strings.
fn assemble(target: String, code: String, first: String, second: String) -> (output: Vec<String>)
    ensures
        output@.len() == 4,
        output@[0] == target,
        output@[1] == code,
        output@[2] == first,
        output@[3] == second,
{
    let mut output: Vec<String> = Vec::new();
    output.push(target);
    output.push(code);
    output.push(first);
    output.push(second);
    output
}

/// A code of three characters.
fn code3(a: char, b: char, c: char) -> (code: String)
    ensures
        code@ == seq![a, b, c],
{
    let mut code = String::new();
    code.push(a);
    code.push(b);
    code.push(c);
    assert(code@ =~= seq![a, b, c]);
    code
}

/// Splits a command line into its four parts: the cell that the command is
/// about, the code of the operation, and the two operands.
pub fn help_input(input: &str) -> (output: Vec<String>)
    ensures
        output@.len() == 4,
        output@[0]@ == command_parts(input@).target,
        output@[1]@ == command_parts(input@).code,
        output@[2]@ == command_parts(input@).first,
        output@[3]@ == command_parts(input@).second,
{
    let line = to_chars(input);
    let chars: &[char] = line.as_slice();
    let n: usize = chars.len();
    let ghost s = chars@;
    let eq: usize = find(chars, 0, Stop::At('='));
    proof {
        lemma_scan_misses(s, '=');
        lemma_scan_misses(s, '(');
    }
    if eq == n {
        let blank: usize = find(chars, 0, Stop::At(' '));
        let target = if blank < n {
            cut(chars, blank + 1, n)
        } else {
            String::new()
        };
        return assemble(target, code3('S', 'R', 'L'), String::new(), String::new());
    }
    let target = cut(chars, 0, eq);
    let start: usize = find(chars, eq + 1, Stop::Not(' '));
    if find(chars, 0, Stop::At('(')) == n {
        if start == n {
            return assemble(target, String::new(), String::new(), String::new());
        }
        let sign: usize = find(chars, start + 1, Stop::Operator);
        let first = cut(chars, start, sign);
        if sign == n {
            let code = code3('E', 'Q', kind_of(chars, start, sign));
            return assemble(target, code, first, String::new());
        }
        let from: usize = find(chars, sign + 1, Stop::Not(' '));
        let second = cut(chars, from, n);
        if from == n {
            return assemble(target, String::new(), first, second);
        }
        let oper: char = chars[sign];
        let letter: char = if oper == '+' {
            'A'
        } else if oper == '-' {
            'S'
        } else if oper == '*' {
            'M'
        } else if oper == '/' {
            'D'
        } else {
            oper
        };
        let code = code3(kind_of(chars, start, sign), kind_of(chars, from, n), letter);
        return assemble(target, code, first, second);
    }
    let paren: usize = find(chars, start, Stop::At('('));
    let sleeps: bool = same_text(chars, start, paren, "SLEEP");
    if sleeps {
        let first = if paren < n {
            cut(chars, paren + 1, find(chars, paren + 1, Stop::At(')')))
        } else {
            String::new()
        };
        let kind: char = if paren < n {
            kind_of(chars, paren + 1, find(chars, paren + 1, Stop::At(')')))
        } else {
            kind_of(chars, n, n)
        };
        proof {
            if paren >= n {
                assert(piece(s, paren + 1, scan(s, paren + 1, Stop::At(')'))) =~= piece(
                    s,
                    n as int,
                    n as int,
                ));
            }
        }
        return assemble(target, code3('S', 'L', kind), first, String::new());
    }
    let colon: usize = if paren < n {
        find(chars, paren + 1, Stop::At(':'))
    } else {
        n
    };
    let first = if paren < n {
        cut(chars, paren + 1, colon)
    } else {
        String::new()
    };
    let second = if colon < n {
        cut(chars, colon + 1, find(chars, colon + 1, Stop::At(')')))
    } else {
        String::new()
    };
    let code = if same_text(chars, start, paren, "SL") {
        let kind: char = if paren < n {
            kind_of(chars, paren + 1, colon)
        } else {
            kind_of(chars, n, n)
        };
        proof {
            if paren >= n {
                assert(piece(s, paren + 1, scan(s, paren + 1, Stop::At(':'))) =~= piece(
                    s,
                    n as int,
                    n as int,
                ));
            }
        }
        code3('S', 'L', kind)
    } else if same_text(chars, start, paren, "STDEV") {
        String::from_str("STD")
    } else if same_text(chars, start, paren, "AVG") {
        String::from_str("MEA")
    } else {
        cut(chars, start, paren)
    };
    assemble(target, code, first, second)
}

/// The message for a verdict.
fn message(verdict: Verdict) -> (text: String)
    ensures
        text@ == message_of(verdict),
{
    match verdict {
        Verdict::Accepted => String::from_str("ok"),
        Verdict::InvalidOperation => String::from_str("Invalid Operation"),
        Verdict::ScrollOutOfBounds => String::from_str("Scroll Cell out of bounds"),
        Verdict::AssignedOutOfBounds => String::from_str("Assigned Cell out of bounds"),
        Verdict::InvalidCell => String::from_str("Invalid Cell"),
        Verdict::InvalidRange => String::from_str("Invalid Range"),
    }
}

/// The parts that four strings hold.
pub open spec fn parts_of(output: Seq<String>) -> Parts {
    Parts { target: output[0]@, code: output[1]@, first: output[2]@, second: output[3]@ }
}

/// Checks the parts of a command line against a grid that is `len_h` wide
/// and `len_v` high.
fn judge(input: &str, output: &[String], len_h: i32, len_v: i32) -> (verdict: Verdict)
    requires
        output@.len() >= 4,
    ensures
        verdict == verdict_of(input@, parts_of(output@), len_h as int, len_v as int),
{
    let code = output[1].as_str();
    if code.as_bytes().len() != 3 {
        return Verdict::InvalidOperation;
    }
    let op = OpCode::decode(code);
    let target_ok: bool = is_valid_cell(output[0].as_str(), len_h, len_v);
    match op {
        OpCode::Scroll => {
            let line = to_chars(input);
            let blank: usize = find(line.as_slice(), 0, Stop::At(' '));
            if !same_text(line.as_slice(), 0, blank, "scroll_to") {
                Verdict::InvalidOperation
            } else if !target_ok {
                Verdict::ScrollOutOfBounds
            } else {
                Verdict::Accepted
            }
        },
        _ => {
            if !target_ok {
                return Verdict::AssignedOutOfBounds;
            }
            match op {
                OpCode::SleepCell | OpCode::AssignCell => {
                    if is_valid_cell(output[2].as_str(), len_h, len_v) {
                        Verdict::Accepted
                    } else {
                        Verdict::InvalidCell
                    }
                },
                OpCode::SleepValue | OpCode::AssignValue => Verdict::Accepted,
                OpCode::Range(_) => {
                    if is_valid_range(output[2].as_str(), output[3].as_str(), len_h, len_v) {
                        Verdict::Accepted
                    } else {
                        Verdict::InvalidRange
                    }
                },
                OpCode::Arith(first, second, _) => {
                    let first_cell: bool = match first {
                        Slot::Cell => true,
                        Slot::Value => false,
                    };
                    let second_cell: bool = match second {
                        Slot::Cell => true,
                        Slot::Value => false,
                    };
                    if first_cell && !is_valid_cell(output[2].as_str(), len_h, len_v) {
                        Verdict::InvalidCell
                    } else if second_cell && !is_valid_cell(output[3].as_str(), len_h, len_v) {
                        Verdict::InvalidCell
                    } else {
                        Verdict::Accepted
                    }
                },
                _ => Verdict::InvalidOperation,
            }
        },
    }
}

/// Checks the parts of a command line against a grid that is `len_h` wide
/// and `len_v` high, and says what it finds: `ok`, or what is wrong.
pub fn check_err(input: &str, output: &[String], len_h: i32, len_v: i32) -> (text: String)
    requires
        output@.len() >= 4,
    ensures
        text@ == message_of(
            verdict_of(input@, parts_of(output@), len_h as int, len_v as int),
        ),
{
    message(judge(input, output, len_h, len_v))
}

/// Splits a command line into its four parts and checks them against a grid
/// that is `len_h` wide and `len_v` high.  The result holds the four parts
/// and, as the fifth entry, `ok` or what is wrong.
pub fn input(line: &str, len_h: i32, len_v: i32) -> (output: Vec<String>)
    ensures
        output@.len() == 5,
        parts_of(output@) == command_parts(line@),
        output@[4]@ == message_of(
            verdict_of(line@, command_parts(line@), len_h as int, len_v as int),
        ),
{
    let mut output = help_input(line);
    let text = check_err(line, output.as_slice(), len_h, len_v);
    output.push(text);
    output
}


} // verus!
