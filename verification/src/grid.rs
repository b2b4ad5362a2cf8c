//! The grid as one owned value.
//!
//! A grid is created empty with a fixed number of columns and rows, and is
//! then changed by edits only.  Reading a cell gives its value and its error
//! flag.

use crate::coherence::coherent;
use crate::engine::{install, is_outcome_of, Outcome};
use crate::evaluate::Sheet;
use crate::graph::{occurrences, ranked, NO_CELL};
use crate::operation::{OpCode, Ops};
use crate::toposort::all_zero;
use vstd::prelude::*;

verus! {

/// A grid of cells with their formulas.
pub struct Grid {
    /// The width of the grid.
    pub columns: i32,
    /// The height of the grid.
    pub rows: i32,
    /// The value of each cell, by linear index.
    pub values: Vec<i32>,
    /// The error flag of each cell.
    pub errors: Vec<bool>,
    /// The formula of each cell.
    pub formulas: Vec<Ops>,
    /// For each cell, the cells that read it, once per read.
    pub readers: Vec<Vec<i32>>,
    /// One scratch counter per cell, all zero between edits.
    pub indegree: Vec<i32>,
}

/// A request to install a formula in a cell.
#[derive(Clone, Copy, Debug, PartialEq, Eq)]
pub struct EditRequest {
    /// The linear index of the cell to edit.
    pub target: i32,
    /// The shape of the formula.
    pub code: OpCode,
    /// The first operand: a literal, or the linear index of a cell.
    pub operand1: i32,
    /// The second operand: a literal, or the linear index of a cell.
    pub operand2: i32,
}

/// The edit was refused because the cell would depend on itself.
#[derive(Clone, Copy, Debug, PartialEq, Eq)]
pub struct CycleRejected;

/// The outcome that the result of an edit stands for.
pub open spec fn outcome_of(result: Result<u64, CycleRejected>) -> Outcome {
    match result {
        Ok(delay) => Outcome { status: 1, delay },
        Err(_) => Outcome { status: 0, delay: 0 },
    }
}

impl EditRequest {
    /// The formula that the request asks for.
    pub open spec fn formula(self) -> Ops {
        Ops { code: self.code, cell1: self.operand1, cell2: self.operand2 }
    }
}

impl Grid {
    /// The number of entries of each store: one per cell, and the unused
    /// entry 0.
    pub open spec fn len(self) -> int {
        self.columns * self.rows + 1
    }

    /// The stores have one entry per cell and fit together, and the scratch
    /// counters are all zero.
    pub open spec fn wf(self) -> bool {
        &&& self.columns >= 1
        &&& self.rows >= 1
        &&& self.len() <= i32::MAX
        &&& self.values@.len() == self.len()
        &&& self.errors@.len() == self.len()
        &&& self.formulas@.len() == self.len()
        &&& self.readers@.len() == self.len()
        &&& self.indegree@.len() == self.len()
        &&& coherent(self.readers@, self.formulas@, self.columns as int)
        &&& all_zero(self.indegree@)
    }

    /// The values and error flags of the grid.
    pub open spec fn sheet(self) -> Sheet {
        Sheet { values: self.values@, errors: self.errors@ }
    }

    /// The request names a cell of the grid, and a formula that reads cells
    /// of the grid only.
    pub open spec fn admits(self, request: EditRequest) -> bool {
        &&& 1 <= request.target < self.len()
        &&& request.formula().valid(self.len(), self.columns as int)
    }

    /// An empty grid: every cell holds 0 without an error and has no formula.
    pub fn new(columns: i32, rows: i32) -> (grid: Grid)
        requires
            columns >= 1,
            rows >= 1,
            columns * rows + 1 <= i32::MAX,
        ensures
            grid.wf(),
            grid.columns == columns,
            grid.rows == rows,
            forall|c: int| 0 <= c < grid.len() ==> #[trigger] grid.values@[c] == 0,
            forall|c: int| 0 <= c < grid.len() ==> #[trigger] grid.errors@[c] == false,
            forall|c: int| 0 <= c < grid.len() ==> #[trigger] grid.formulas@[c].code == OpCode::Empty,
    {
        assert(0 < columns * rows) by (nonlinear_arith)
            requires
                columns >= 1,
                rows >= 1,
        ;
        let len: usize = (columns as i64 * rows as i64 + 1) as usize;
        let mut values: Vec<i32> = Vec::new();
        let mut errors: Vec<bool> = Vec::new();
        let mut formulas: Vec<Ops> = Vec::new();
        let mut readers: Vec<Vec<i32>> = Vec::new();
        let mut indegree: Vec<i32> = Vec::new();
        let mut i: usize = 0;
        while i < len
            invariant
                i <= len,
                values@.len() == i,
                errors@.len() == i,
                formulas@.len() == i,
                readers@.len() == i,
                indegree@.len() == i,
                forall|c: int| 0 <= c < i ==> #[trigger] values@[c] == 0,
                forall|c: int| 0 <= c < i ==> #[trigger] errors@[c] == false,
                forall|c: int| 0 <= c < i ==> #[trigger] formulas@[c].code == OpCode::Empty,
                forall|c: int| 0 <= c < i ==> #[trigger] readers@[c]@.len() == 0,
                forall|c: int| 0 <= c < i ==> #[trigger] indegree@[c] == 0,
            decreases len - i,
        {
            values.push(0);
            errors.push(false);
            formulas.push(Ops::empty());
            readers.push(Vec::new());
            indegree.push(0);
            i = i + 1;
        }
        let grid = Grid { columns, rows, values, errors, formulas, readers, indegree };
        proof {
            let flat = Seq::new(len as nat, |v: int| 0nat);
            assert(ranked(grid.readers@, flat, NO_CELL));
            assert forall|x: int, y: int|
                0 <= x < grid.formulas@.len() && 0 <= y < grid.formulas@.len() implies occurrences(
                grid.readers@[x]@,
                y as i32,
            ) == #[trigger] grid.formulas@[y].reads(x, columns as int) by {
                assert(grid.readers@[x]@.len() == 0);
                assert(grid.formulas@[y].code == OpCode::Empty);
            }
            assert forall|y: int| 0 <= y < grid.formulas@.len() implies (#[trigger] grid.formulas@[y]).valid(
                grid.formulas@.len() as int,
                columns as int,
            ) by {
                assert(grid.formulas@[y].code == OpCode::Empty);
            }
        }
        grid
    }

    /// An empty grid, if a grid of that size can be had: both sides are at
    /// least 1, and the number of cells is below `i32::MAX`.
    pub fn try_new(columns: i32, rows: i32) -> (grid: Option<Grid>)
        ensures
            grid is Some <==> columns >= 1 && rows >= 1 && columns * rows + 1 <= i32::MAX,
            grid is Some ==> {
                &&& grid->0.wf()
                &&& grid->0.columns == columns
                &&& grid->0.rows == rows
                &&& forall|c: int| 0 <= c < grid->0.len() ==> #[trigger] grid->0.values@[c] == 0
                &&& forall|c: int| 0 <= c < grid->0.len() ==> #[trigger] grid->0.errors@[c] == false
                &&& forall|c: int|
                    0 <= c < grid->0.len() ==> #[trigger] grid->0.formulas@[c].code
                        == OpCode::Empty
            },
    {
        if columns < 1 || rows < 1 {
            return None;
        }
        assert(columns * rows <= 0x7fff_ffff * 0x7fff_ffff) by (nonlinear_arith)
            requires
                1 <= columns <= 0x7fff_ffff,
                1 <= rows <= 0x7fff_ffff,
        ;
        if columns as i64 * rows as i64 + 1 > 0x7fff_ffff {
            return None;
        }
        Some(Grid::new(columns, rows))
    }

    /// Exec form of [`Grid::admits`].
    pub fn can_apply(&self, request: EditRequest) -> (b: bool)
        requires
            self.wf(),
        ensures
            b == self.admits(request),
    {
        let op = Ops { code: request.code, cell1: request.operand1, cell2: request.operand2 };
        1 <= request.target && (request.target as usize) < self.formulas.len() && op.is_valid(
            self.formulas.len(),
            self.columns,
        )
    }

    /// The value and the error flag of a cell.
    pub fn read(&self, cell: i32) -> (held: (i32, bool))
        requires
            self.wf(),
            0 <= cell < self.len(),
        ensures
            held.0 == self.values@[cell as int],
            held.1 == self.errors@[cell as int],
    {
        (self.values[cell as usize], self.errors[cell as usize])
    }

    /// Applies an edit; [`is_outcome_of`] says what that does.
    ///
    /// The edit is refused exactly if the cell would depend on itself; the
    /// grid is then what it was.  Otherwise the formula is installed, the
    /// cells that do not depend on the edited cell keep their value and error
    /// flag, and each cell that depends on it holds what its formula gives on
    /// the new values.  The number returned is the seconds for which the
    /// caller is to block: the sum of what the delay formulas among the
    /// recomputed cells ask for.
    pub fn apply_edit(&mut self, request: EditRequest) -> (result: Result<u64, CycleRejected>)
        requires
            old(self).wf(),
            old(self).admits(request),
        ensures
            final(self).wf(),
            final(self).columns == old(self).columns,
            final(self).rows == old(self).rows,
            is_outcome_of(
                request.target,
                request.formula(),
                old(self).columns as int,
                old(self).formulas@,
                old(self).readers@,
                old(self).sheet(),
                final(self).formulas@,
                final(self).readers@,
                final(self).sheet(),
                outcome_of(result),
            ),
    {
        let op = Ops { code: request.code, cell1: request.operand1, cell2: request.operand2 };
        let outcome = install(
            request.target,
            op,
            self.values.as_mut_slice(),
            self.readers.as_mut_slice(),
            self.formulas.as_mut_slice(),
            self.columns,
            self.indegree.as_mut_slice(),
            self.errors.as_mut_slice(),
        );
        if outcome.status == 0 {
            Err(CycleRejected)
        } else {
            Ok(outcome.delay)
        }
    }
}

} // verus!
