//! The formulas a cell can hold.
//!
//! A formula is an operation code with two integer operands.  The code says
//! how each operand is read: as a literal, or as the linear index of another
//! cell.

use crate::address::{column_of, coordinate_of, row_of};
use vstd::prelude::*;
use vstd::string::*;

verus! {

/// How an operand of an arithmetic formula is read.
#[derive(Clone, Copy, Debug, PartialEq, Eq, Structural)]
pub enum Slot {
    /// The operand is the linear index of a cell.
    Cell,
    /// The operand is a literal.
    Value,
}

/// The four arithmetic operators.
#[derive(Clone, Copy, Debug, PartialEq, Eq, Structural)]
pub enum Arith {
    Add,
    Sub,
    Mul,
    Div,
}

/// The aggregates over a rectangle of cells.
#[derive(Clone, Copy, Debug, PartialEq, Eq, Structural)]
pub enum Aggregate {
    Sum,
    Min,
    Max,
    Mean,
    Stdev,
}

/// The shape of a formula.
#[derive(Clone, Copy, Debug, PartialEq, Eq, Structural)]
pub enum OpCode {
    /// No formula.
    Empty,
    /// `first (+|-|*|/) second`, written `CCA`, `CVS`, `VCM`, ...
    Arith(Slot, Slot, Arith),
    /// The literal `cell1`, written `EQV`.
    AssignValue,
    /// The value of the cell `cell1`, written `EQC`.
    AssignCell,
    /// An aggregate over the rectangle with corners `cell1` and `cell2`,
    /// written `SUM`, `MIN`, `MAX`, `MEA`, `STD`.
    Range(Aggregate),
    /// A delay of `cell1` seconds, written `SLV`.
    SleepValue,
    /// A delay of as many seconds as the cell `cell1` holds, written `SLC`.
    SleepCell,
    /// Moves the viewport and bears no value, written `SRL`.
    Scroll,
}

/// One cell's formula.
#[derive(Clone, Copy, Debug, PartialEq, Eq, Structural)]
pub struct Ops {
    pub code: OpCode,
    pub cell1: i32,
    pub cell2: i32,
}

/// Whether `index` lies in the rectangle whose top-left corner is the cell
/// `c1` and whose bottom-right corner is the cell `c2`.
pub open spec fn in_rect(index: int, c1: int, c2: int, columns: int) -> bool {
    &&& index >= 1
    &&& column_of(c1, columns) <= column_of(index, columns) <= column_of(c2, columns)
    &&& row_of(c1, columns) <= row_of(index, columns) <= row_of(c2, columns)
}

/// The slot kind that a character of an arithmetic code stands for.
pub open spec fn slot_of(c: char) -> Option<Slot> {
    if c == 'C' {
        Some(Slot::Cell)
    } else if c == 'V' {
        Some(Slot::Value)
    } else {
        None
    }
}

/// The operator that a character of an arithmetic code stands for.
pub open spec fn arith_of(c: char) -> Option<Arith> {
    if c == 'A' {
        Some(Arith::Add)
    } else if c == 'S' {
        Some(Arith::Sub)
    } else if c == 'M' {
        Some(Arith::Mul)
    } else if c == 'D' {
        Some(Arith::Div)
    } else {
        None
    }
}

/// The meaning of a three-character code; any other text is no formula.
pub open spec fn code_of(s: Seq<char>) -> OpCode {
    if s.len() != 3 {
        OpCode::Empty
    } else if slot_of(s[0]) is Some && slot_of(s[1]) is Some && arith_of(s[2]) is Some {
        OpCode::Arith(slot_of(s[0])->0, slot_of(s[1])->0, arith_of(s[2])->0)
    } else if s == seq!['E', 'Q', 'V'] {
        OpCode::AssignValue
    } else if s == seq!['E', 'Q', 'C'] {
        OpCode::AssignCell
    } else if s == seq!['S', 'U', 'M'] {
        OpCode::Range(Aggregate::Sum)
    } else if s == seq!['M', 'I', 'N'] {
        OpCode::Range(Aggregate::Min)
    } else if s == seq!['M', 'A', 'X'] {
        OpCode::Range(Aggregate::Max)
    } else if s == seq!['M', 'E', 'A'] {
        OpCode::Range(Aggregate::Mean)
    } else if s == seq!['S', 'T', 'D'] {
        OpCode::Range(Aggregate::Stdev)
    } else if s == seq!['S', 'L', 'V'] {
        OpCode::SleepValue
    } else if s == seq!['S', 'L', 'C'] {
        OpCode::SleepCell
    } else if s == seq!['S', 'R', 'L'] {
        OpCode::Scroll
    } else {
        OpCode::Empty
    }
}

/// The character that stands for a slot kind in an arithmetic code.
pub open spec fn slot_letter(slot: Slot) -> char {
    match slot {
        Slot::Cell => 'C',
        Slot::Value => 'V',
    }
}

/// The character that stands for an operator in an arithmetic code.
pub open spec fn arith_letter(oper: Arith) -> char {
    match oper {
        Arith::Add => 'A',
        Arith::Sub => 'S',
        Arith::Mul => 'M',
        Arith::Div => 'D',
    }
}

/// The three-character code of a formula's shape; no character for no
/// formula.
pub open spec fn mnemonic_of(op: OpCode) -> Seq<char> {
    match op {
        OpCode::Empty => Seq::<char>::empty(),
        OpCode::Arith(first, second, oper) => seq![
            slot_letter(first),
            slot_letter(second),
            arith_letter(oper),
        ],
        OpCode::AssignValue => seq!['E', 'Q', 'V'],
        OpCode::AssignCell => seq!['E', 'Q', 'C'],
        OpCode::Range(Aggregate::Sum) => seq!['S', 'U', 'M'],
        OpCode::Range(Aggregate::Min) => seq!['M', 'I', 'N'],
        OpCode::Range(Aggregate::Max) => seq!['M', 'A', 'X'],
        OpCode::Range(Aggregate::Mean) => seq!['M', 'E', 'A'],
        OpCode::Range(Aggregate::Stdev) => seq!['S', 'T', 'D'],
        OpCode::SleepValue => seq!['S', 'L', 'V'],
        OpCode::SleepCell => seq!['S', 'L', 'C'],
        OpCode::Scroll => seq!['S', 'R', 'L'],
    }
}

/// Round trip: the code of a shape is decoded to that shape.
pub proof fn lemma_mnemonic_round_trip(op: OpCode)
    ensures
        code_of(mnemonic_of(op)) == op,
{
    let s = mnemonic_of(op);
    if s.len() == 3 {
        assert(s =~= seq![s[0], s[1], s[2]]);
    }
}

impl OpCode {
    /// The three-character code of the shape.
    pub fn mnemonic(&self) -> (text: String)
        ensures
            text@ == mnemonic_of(*self),
    {
        let mut text = String::new();
        match self {
            OpCode::Empty => {},
            OpCode::Arith(first, second, oper) => {
                text.push(
                    match first {
                        Slot::Cell => 'C',
                        Slot::Value => 'V',
                    },
                );
                text.push(
                    match second {
                        Slot::Cell => 'C',
                        Slot::Value => 'V',
                    },
                );
                text.push(
                    match oper {
                        Arith::Add => 'A',
                        Arith::Sub => 'S',
                        Arith::Mul => 'M',
                        Arith::Div => 'D',
                    },
                );
            },
            OpCode::AssignValue => {
                text.push('E');
                text.push('Q');
                text.push('V');
            },
            OpCode::AssignCell => {
                text.push('E');
                text.push('Q');
                text.push('C');
            },
            OpCode::Range(Aggregate::Sum) => {
                text.push('S');
                text.push('U');
                text.push('M');
            },
            OpCode::Range(Aggregate::Min) => {
                text.push('M');
                text.push('I');
                text.push('N');
            },
            OpCode::Range(Aggregate::Max) => {
                text.push('M');
                text.push('A');
                text.push('X');
            },
            OpCode::Range(Aggregate::Mean) => {
                text.push('M');
                text.push('E');
                text.push('A');
            },
            OpCode::Range(Aggregate::Stdev) => {
                text.push('S');
                text.push('T');
                text.push('D');
            },
            OpCode::SleepValue => {
                text.push('S');
                text.push('L');
                text.push('V');
            },
            OpCode::SleepCell => {
                text.push('S');
                text.push('L');
                text.push('C');
            },
            OpCode::Scroll => {
                text.push('S');
                text.push('R');
                text.push('L');
            },
        }
        assert(text@ =~= mnemonic_of(*self));
        text
    }

    /// Whether the first operand names a cell that the formula reads.
    pub open spec fn first_is_cell(self) -> bool {
        match self {
            OpCode::Arith(Slot::Cell, _, _) => true,
            OpCode::AssignCell => true,
            OpCode::SleepCell => true,
            _ => false,
        }
    }

    /// Whether the second operand names a cell that the formula reads.
    pub open spec fn second_is_cell(self) -> bool {
        match self {
            OpCode::Arith(_, Slot::Cell, _) => true,
            _ => false,
        }
    }

    /// Whether the operands are the corners of a rectangle.
    pub open spec fn is_range(self) -> bool {
        self is Range
    }

    /// Decodes a three-character code.
    pub fn decode(code: &str) -> (op: OpCode)
        ensures
            op == code_of(code@),
    {
        if code.unicode_len() != 3 {
            return OpCode::Empty;
        }
        let a: char = code.get_char(0);
        let b: char = code.get_char(1);
        let c: char = code.get_char(2);
        assert(code@ =~= seq![a, b, c]);
        if (a == 'C' || a == 'V') && (b == 'C' || b == 'V') && (c == 'A' || c == 'S' || c == 'M'
            || c == 'D') {
            let first = if a == 'C' {
                Slot::Cell
            } else {
                Slot::Value
            };
            let second = if b == 'C' {
                Slot::Cell
            } else {
                Slot::Value
            };
            let oper = if c == 'A' {
                Arith::Add
            } else if c == 'S' {
                Arith::Sub
            } else if c == 'M' {
                Arith::Mul
            } else {
                Arith::Div
            };
            OpCode::Arith(first, second, oper)
        } else if a == 'E' && b == 'Q' && c == 'V' {
            OpCode::AssignValue
        } else if a == 'E' && b == 'Q' && c == 'C' {
            OpCode::AssignCell
        } else if a == 'S' && b == 'U' && c == 'M' {
            OpCode::Range(Aggregate::Sum)
        } else if a == 'M' && b == 'I' && c == 'N' {
            OpCode::Range(Aggregate::Min)
        } else if a == 'M' && b == 'A' && c == 'X' {
            OpCode::Range(Aggregate::Max)
        } else if a == 'M' && b == 'E' && c == 'A' {
            OpCode::Range(Aggregate::Mean)
        } else if a == 'S' && b == 'T' && c == 'D' {
            OpCode::Range(Aggregate::Stdev)
        } else if a == 'S' && b == 'L' && c == 'V' {
            OpCode::SleepValue
        } else if a == 'S' && b == 'L' && c == 'C' {
            OpCode::SleepCell
        } else if a == 'S' && b == 'R' && c == 'L' {
            OpCode::Scroll
        } else {
            OpCode::Empty
        }
    }

    /// Exec form of [`OpCode::first_is_cell`].
    pub fn reads_first(&self) -> (b: bool)
        ensures
            b == self.first_is_cell(),
    {
        match self {
            OpCode::Arith(Slot::Cell, _, _) => true,
            OpCode::AssignCell => true,
            OpCode::SleepCell => true,
            _ => false,
        }
    }

    /// Exec form of [`OpCode::second_is_cell`].
    pub fn reads_second(&self) -> (b: bool)
        ensures
            b == self.second_is_cell(),
    {
        match self {
            OpCode::Arith(_, Slot::Cell, _) => true,
            _ => false,
        }
    }

    /// Exec form of [`OpCode::is_range`].
    pub fn reads_range(&self) -> (b: bool)
        ensures
            b == self.is_range(),
    {
        match self {
            OpCode::Range(_) => true,
            _ => false,
        }
    }
}

impl Ops {
    /// The formula with the given three-character code and operands.
    pub fn new(code: &str, cell1: i32, cell2: i32) -> (op: Ops)
        ensures
            op.code == code_of(code@),
            op.cell1 == cell1,
            op.cell2 == cell2,
    {
        Ops { code: OpCode::decode(code), cell1, cell2 }
    }

    /// The formula of a cell that was never assigned.
    pub fn empty() -> (op: Ops)
        ensures
            op.code == OpCode::Empty,
            op.cell1 == -1,
            op.cell2 == -1,
    {
        Ops { code: OpCode::Empty, cell1: -1, cell2: -1 }
    }

    /// Every cell that the formula reads is a cell of a store of `len`
    /// entries, and the corners of a rectangle come in order.
    pub open spec fn valid(self, len: int, columns: int) -> bool {
        &&& self.code.first_is_cell() ==> 1 <= self.cell1 < len
        &&& self.code.second_is_cell() ==> 1 <= self.cell2 < len
        &&& self.code.is_range() ==> {
            &&& 1 <= self.cell1 < len
            &&& 1 <= self.cell2 < len
            &&& column_of(self.cell1 as int, columns) <= column_of(self.cell2 as int, columns)
            &&& row_of(self.cell1 as int, columns) <= row_of(self.cell2 as int, columns)
        }
    }

    /// Exec form of [`Ops::valid`].
    pub fn is_valid(&self, len: usize, columns: i32) -> (b: bool)
        requires
            columns >= 1,
        ensures
            b == self.valid(len as int, columns as int),
    {
        let first_in: bool = 1 <= self.cell1 && (self.cell1 as usize) < len;
        let second_in: bool = 1 <= self.cell2 && (self.cell2 as usize) < len;
        let first_ok: bool = !self.code.reads_first() || first_in;
        let second_ok: bool = !self.code.reads_second() || second_in;
        if !self.code.reads_range() {
            return first_ok && second_ok;
        }
        if !(first_in && second_in) {
            return false;
        }
        let (x1, y1) = coordinate_of(self.cell1, columns);
        let (x2, y2) = coordinate_of(self.cell2, columns);
        first_ok && second_ok && x1 <= x2 && y1 <= y2
    }

    /// How many times the formula reads the cell `index`.
    pub open spec fn reads(self, index: int, columns: int) -> nat {
        let first: nat = if self.code.first_is_cell() && self.cell1 == index {
            1
        } else {
            0
        };
        let second: nat = if self.code.second_is_cell() && self.cell2 == index {
            1
        } else {
            0
        };
        let range: nat = if self.code.is_range() && in_rect(
            index,
            self.cell1 as int,
            self.cell2 as int,
            columns,
        ) {
            1
        } else {
            0
        };
        first + second + range
    }
}

} // verus!
