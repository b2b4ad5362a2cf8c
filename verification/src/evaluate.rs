//! Evaluation of formulas.
//!
//! A formula is evaluated on the value store and the error store, which are
//! parallel sequences indexed by linear index, and writes the value and the
//! error flag of its own cell.

use crate::numeric::{
    quotient,
    wrap,
    wrapping_difference,
    wrapping_product,
    wrapping_quotient,
    wrapping_sum,
};
use crate::operation::{Aggregate, Arith, OpCode, Ops, Slot};
use crate::operations::{
    avg,
    max,
    min,
    range_error,
    range_max,
    range_mean,
    range_min,
    range_stdev,
    range_sum,
    stdev,
    sum,
};
use vstd::prelude::*;

verus! {

/// What an operand of an arithmetic formula contributes as a value.
pub open spec fn operand(slot: Slot, raw: i32, values: Seq<i32>) -> int {
    match slot {
        Slot::Cell => values[raw as int] as int,
        Slot::Value => raw as int,
    }
}

/// What an operand of an arithmetic formula contributes as an error.
pub open spec fn operand_error(slot: Slot, raw: i32, errors: Seq<bool>) -> bool {
    match slot {
        Slot::Cell => errors[raw as int],
        Slot::Value => false,
    }
}

/// The value that the cell `own` holds once its formula `op` is evaluated on
/// the given stores.  A division by zero and a delay on a cell in error keep
/// the value that the cell held before.
pub open spec fn value_after(
    op: Ops,
    values: Seq<i32>,
    errors: Seq<bool>,
    own: int,
    columns: int,
) -> int {
    match op.code {
        OpCode::Empty => values[own] as int,
        OpCode::Scroll => values[own] as int,
        OpCode::Arith(first, second, oper) => {
            let a = operand(first, op.cell1, values);
            let b = operand(second, op.cell2, values);
            match oper {
                Arith::Add => wrap(a + b),
                Arith::Sub => wrap(a - b),
                Arith::Mul => wrap(a * b),
                Arith::Div => if b == 0 {
                    values[own] as int
                } else {
                    wrap(quotient(a, b))
                },
            }
        },
        OpCode::AssignValue => op.cell1 as int,
        OpCode::AssignCell => values[op.cell1 as int] as int,
        OpCode::Range(aggregate) => {
            let c1 = op.cell1 as int;
            let c2 = op.cell2 as int;
            match aggregate {
                Aggregate::Sum => wrap(range_sum(values, c1, c2, columns)),
                Aggregate::Min => range_min(values, c1, c2, columns),
                Aggregate::Max => range_max(values, c1, c2, columns),
                Aggregate::Mean => range_mean(values, c1, c2, columns),
                Aggregate::Stdev => range_stdev(values, c1, c2, columns),
            }
        },
        OpCode::SleepValue => op.cell1 as int,
        OpCode::SleepCell => if errors[op.cell1 as int] {
            values[own] as int
        } else {
            values[op.cell1 as int] as int
        },
    }
}

/// The error flag of the cell `own` once its formula `op` is evaluated on the
/// given stores: whether any cell it reads carries an error, or it divides by
/// zero.
pub open spec fn error_after(
    op: Ops,
    values: Seq<i32>,
    errors: Seq<bool>,
    own: int,
    columns: int,
) -> bool {
    match op.code {
        OpCode::Empty => errors[own],
        OpCode::Scroll => errors[own],
        OpCode::Arith(first, second, oper) => {
            let b = operand(second, op.cell2, values);
            operand_error(first, op.cell1, errors) || operand_error(second, op.cell2, errors) || (
            oper == Arith::Div && b == 0)
        },
        OpCode::AssignValue => false,
        OpCode::AssignCell => errors[op.cell1 as int],
        OpCode::Range(_) => range_error(errors, op.cell1 as int, op.cell2 as int, columns),
        OpCode::SleepValue => false,
        OpCode::SleepCell => errors[op.cell1 as int],
    }
}

/// The seconds that evaluating `op` on the given stores takes: what a delay
/// formula asks for, and nothing for any other.
pub open spec fn delay_after(op: Ops, values: Seq<i32>, errors: Seq<bool>) -> int {
    match op.code {
        OpCode::SleepValue => if op.cell1 > 0 {
            op.cell1 as int
        } else {
            0
        },
        OpCode::SleepCell => if !errors[op.cell1 as int] && values[op.cell1 as int] > 0 {
            values[op.cell1 as int] as int
        } else {
            0
        },
        _ => 0,
    }
}

/// Resolves an operand of an arithmetic formula.
fn fetch(slot: Slot, raw: i32, database: &[i32], err: &[bool]) -> (got: (i32, bool))
    requires
        slot == Slot::Cell ==> 0 <= raw < database@.len(),
        err@.len() == database@.len(),
    ensures
        got.0 == operand(slot, raw, database@),
        got.1 == operand_error(slot, raw, err@),
{
    match slot {
        Slot::Cell => (database[raw as usize], err[raw as usize]),
        Slot::Value => (raw, false),
    }
}

/// Evaluates the formula of `cell` and stores its value and error flag.
/// Returns the seconds for which the caller is to block before it goes on,
/// which is how a delay formula takes effect.
pub fn calc(cell: i32, database: &mut [i32], opers: &[Ops], len_h: i32, err: &mut [bool]) -> (delay:
    u64)
    requires
        len_h >= 1,
        0 <= cell < opers@.len(),
        old(database)@.len() == opers@.len(),
        old(err)@.len() == opers@.len(),
        opers@[cell as int].valid(opers@.len() as int, len_h as int),
    ensures
        final(database)@ == old(database)@.update(
            cell as int,
            value_after(opers@[cell as int], old(database)@, old(err)@, cell as int, len_h as int)
                as i32,
        ),
        final(err)@ == old(err)@.update(
            cell as int,
            error_after(opers@[cell as int], old(database)@, old(err)@, cell as int, len_h as int),
        ),
        i32::MIN <= value_after(
            opers@[cell as int],
            old(database)@,
            old(err)@,
            cell as int,
            len_h as int,
        ) <= i32::MAX,
        delay == delay_after(opers@[cell as int], old(database)@, old(err)@),
{
    let at: usize = cell as usize;
    let op: Ops = opers[at];
    let ghost values = database@;
    let ghost errors = err@;
    match op.code {
        OpCode::Empty => {
            assert(database@ =~= values.update(cell as int, values[cell as int]));
            assert(err@ =~= errors.update(cell as int, errors[cell as int]));
            0
        },
        OpCode::Scroll => {
            assert(database@ =~= values.update(cell as int, values[cell as int]));
            assert(err@ =~= errors.update(cell as int, errors[cell as int]));
            0
        },
        OpCode::Arith(first, second, oper) => {
            let (a, a_err) = fetch(first, op.cell1, database, err);
            let (b, b_err) = fetch(second, op.cell2, database, err);
            match oper {
                Arith::Add => {
                    err[at] = a_err || b_err;
                    database[at] = wrapping_sum(a, b);
                },
                Arith::Sub => {
                    err[at] = a_err || b_err;
                    database[at] = wrapping_difference(a, b);
                },
                Arith::Mul => {
                    err[at] = a_err || b_err;
                    database[at] = wrapping_product(a, b);
                },
                Arith::Div => {
                    err[at] = a_err || b_err || b == 0;
                    if b != 0 {
                        database[at] = wrapping_quotient(a, b);
                    } else {
                        assert(database@ =~= values.update(cell as int, values[cell as int]));
                    }
                },
            }
            0
        },
        OpCode::AssignValue => {
            err[at] = false;
            database[at] = op.cell1;
            0
        },
        OpCode::AssignCell => {
            let source: usize = op.cell1 as usize;
            err[at] = err[source];
            database[at] = database[source];
            0
        },
        OpCode::Range(aggregate) => {
            let value: i32 = match aggregate {
                Aggregate::Sum => sum(op.cell1, op.cell2, database, len_h, err, cell),
                Aggregate::Min => min(op.cell1, op.cell2, database, len_h, err, cell),
                Aggregate::Max => max(op.cell1, op.cell2, database, len_h, err, cell),
                Aggregate::Mean => avg(op.cell1, op.cell2, database, len_h, err, cell),
                Aggregate::Stdev => stdev(op.cell1, op.cell2, database, len_h, err, cell),
            };
            database[at] = value;
            0
        },
        OpCode::SleepValue => {
            database[at] = op.cell1;
            err[at] = false;
            if op.cell1 > 0 {
                op.cell1 as u64
            } else {
                0
            }
        },
        OpCode::SleepCell => {
            let source: usize = op.cell1 as usize;
            if err[source] {
                err[at] = true;
                assert(database@ =~= values.update(cell as int, values[cell as int]));
                0
            } else {
                let seconds: i32 = database[source];
                database[at] = seconds;
                err[at] = false;
                if seconds > 0 {
                    seconds as u64
                } else {
                    0
                }
            }
        },
    }
}

/// The value store and the error store together.
pub struct Sheet {
    pub values: Seq<i32>,
    pub errors: Seq<bool>,
}

/// The stores after the formula of `cell` has been evaluated on them.
pub open spec fn step(s: Sheet, opers: Seq<Ops>, columns: int, cell: int) -> Sheet {
    Sheet {
        values: s.values.update(
            cell,
            value_after(opers[cell], s.values, s.errors, cell, columns) as i32,
        ),
        errors: s.errors.update(cell, error_after(opers[cell], s.values, s.errors, cell, columns)),
    }
}

/// The stores after the formulas of the cells of `order` have been evaluated
/// one after the other.
pub open spec fn replay(s: Sheet, opers: Seq<Ops>, columns: int, order: Seq<i32>) -> Sheet
    decreases order.len(),
{
    if order.len() == 0 {
        s
    } else {
        step(replay(s, opers, columns, order.drop_last()), opers, columns, order.last() as int)
    }
}

/// The seconds that evaluating the formulas of the cells of `order` one after
/// the other takes.
pub open spec fn replay_delay(s: Sheet, opers: Seq<Ops>, columns: int, order: Seq<i32>) -> int
    decreases order.len(),
{
    if order.len() == 0 {
        0
    } else {
        let before = replay(s, opers, columns, order.drop_last());
        replay_delay(s, opers, columns, order.drop_last()) + delay_after(
            opers[order.last() as int],
            before.values,
            before.errors,
        )
    }
}

/// Recomputes the cells listed in `topo_arr` in the order given.  The first
/// entry of `topo_arr` is the number of cells that follow.  Returns the
/// seconds for which the caller is to block: the sum of what each delay
/// formula among them asks for.
pub fn val_update(
    topo_arr: &[i32],
    database: &mut [i32],
    opers: &[Ops],
    len_h: i32,
    err: &mut [bool],
) -> (delay: u64)
    requires
        len_h >= 1,
        old(database)@.len() == opers@.len(),
        old(err)@.len() == opers@.len(),
        topo_arr@.len() >= 1,
        0 <= topo_arr@[0] < topo_arr@.len(),
        forall|i: int|
            1 <= i <= topo_arr@[0] ==> 0 <= #[trigger] topo_arr@[i] < opers@.len()
                && opers@[topo_arr@[i] as int].valid(opers@.len() as int, len_h as int),
    ensures
        (Sheet { values: final(database)@, errors: final(err)@ }) == replay(
            Sheet { values: old(database)@, errors: old(err)@ },
            opers@,
            len_h as int,
            topo_arr@.subrange(1, 1 + topo_arr@[0]),
        ),
        delay == replay_delay(
            Sheet { values: old(database)@, errors: old(err)@ },
            opers@,
            len_h as int,
            topo_arr@.subrange(1, 1 + topo_arr@[0]),
        ),
{
    let count: usize = topo_arr[0] as usize;
    let ghost start = Sheet { values: database@, errors: err@ };
    let ghost order = topo_arr@.subrange(1, 1 + count);
    let mut delay: u64 = 0;
    let mut i: usize = 0;
    proof {
        assert(order.take(0) =~= Seq::<i32>::empty());
    }
    while i < count
        invariant
            len_h >= 1,
            count == topo_arr@[0],
            count < topo_arr@.len(),
            count <= i32::MAX,
            i <= count,
            order == topo_arr@.subrange(1, 1 + count),
            database@.len() == opers@.len(),
            err@.len() == opers@.len(),
            forall|k: int|
                1 <= k <= topo_arr@[0] ==> 0 <= #[trigger] topo_arr@[k] < opers@.len()
                    && opers@[topo_arr@[k] as int].valid(opers@.len() as int, len_h as int),
            (Sheet { values: database@, errors: err@ }) == replay(
                start,
                opers@,
                len_h as int,
                order.take(i as int),
            ),
            delay == replay_delay(start, opers@, len_h as int, order.take(i as int)),
            0 <= delay <= i * 0x7fff_ffff,
        decreases count - i,
    {
        let cell: i32 = topo_arr[i + 1];
        proof {
            assert(order.take(i + 1).drop_last() =~= order.take(i as int));
            assert(order.take(i + 1).last() == cell);
        }
        let wait: u64 = calc(cell, database, opers, len_h, err);
        delay = delay + wait;
        i = i + 1;
    }
    proof {
        assert(order.take(count as int) =~= order);
    }
    delay
}


} // verus!
