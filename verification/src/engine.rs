//! Application of an edit to the raw stores.
//!
//! The stores are parallel sequences indexed by linear index: the values, the
//! error flags, the formulas, the readers of each cell and a scratch counter
//! per cell.  An edit installs a formula in one cell.  It is refused, and
//! leaves everything as it was, when the cell would come to depend on itself;
//! otherwise every cell that depends on the edited one is recomputed.

use crate::address::{cell_index, cell_to_ind, label_parts, packed};
use crate::coherence::{
    affects,
    coherent,
    counted,
    feeds_itself,
    lemma_due_in_any_order,
    lemma_in_degree_bounded,
    lemma_new_edges_into_cell,
    lemma_order_reads_earlier,
    lemma_reach_is_affect,
    lemma_same_lists_coherent,
    lemma_still_acyclic,
    total_due,
};
use crate::evaluate::{val_update, Sheet};
use crate::graph::{
    in_degree,
    is_recompute_order,
    lemma_occurrences_contains,
    occurrences,
    on_cycle,
    reaches,
    NO_CELL,
};
use crate::operation::{code_of, OpCode, Ops};
use crate::settle::{lemma_replay_settles, settled};
use crate::text::{parse_i32, parse_int, to_chars};
use crate::toposort::{all_zero, topo_sort};
use crate::wiring::{lists, only_for, rewire, rewired, undo, Change};
use vstd::prelude::*;

verus! {

/// How an edit ended.
#[derive(Clone, Copy, Debug, PartialEq, Eq)]
pub struct Outcome {
    /// `1` if the edit was applied, `0` if it was refused.
    pub status: i32,
    /// The seconds for which the caller is to block before it goes on.
    pub delay: u64,
}

/// What installing the formula `op` in the cell `target` makes of the
/// formulas, the readers' lists, the values and the error flags.
///
/// The edit is refused exactly if `target` would depend on itself.  Then the
/// formulas, the values and the error flags are what they were, and every
/// cell has the readers it had, in the order in which it had them.
/// Otherwise the formula is installed; `target` has left the readers of the
/// cells that its former formula read and joined, at the end, the readers of
/// the cells that its new formula reads; the cells that do not depend on
/// `target` keep their value and error flag; and each cell that depends on
/// `target`, `target` among them, holds what its formula gives on the new
/// stores.  The delay is the sum of what the delay formulas among the
/// recomputed cells ask for.
pub open spec fn is_outcome_of(
    target: i32,
    op: Ops,
    columns: int,
    opers: Seq<Ops>,
    sensi: Seq<Vec<i32>>,
    start: Sheet,
    opers_after: Seq<Ops>,
    sensi_after: Seq<Vec<i32>>,
    end: Sheet,
    outcome: Outcome,
) -> bool {
    let proposed = opers.update(target as int, op);
    &&& outcome.status == 0 || outcome.status == 1
    &&& outcome.status == 0 <==> feeds_itself(proposed, columns, target)
    &&& outcome.status == 0 ==> {
        &&& opers_after == opers
        &&& end == start
        &&& outcome.delay == 0
        &&& forall|x: int| 0 <= x < opers.len() ==> #[trigger] sensi_after[x]@ == sensi[x]@
    }
    &&& outcome.status == 1 ==> {
        &&& opers_after == proposed
        &&& forall|x: int|
            0 <= x < opers.len() ==> (#[trigger] sensi_after[x])@ == rewired(
                sensi[x]@,
                target,
                opers[target as int],
                op,
                x,
                columns,
            )
        &&& forall|c: int|
            0 <= c < opers.len() && !affects(proposed, columns, target, c as i32)
                ==> #[trigger] end.values[c] == start.values[c] && end.errors[c] == start.errors[c]
        &&& forall|c: int|
            0 <= c < opers.len() && affects(proposed, columns, target, c as i32)
                ==> #[trigger] settled(proposed, columns, start, end, c)
        &&& outcome.delay == total_due(proposed, columns, end, target, opers.len())
    }
}

/// Installs the formula `op` in the cell `target`; [`is_outcome_of`] says
/// what that does.
pub fn install(
    target: i32,
    op: Ops,
    database: &mut [i32],
    sensi: &mut [Vec<i32>],
    opers: &mut [Ops],
    len_h: i32,
    indegree: &mut [i32],
    err: &mut [bool],
) -> (outcome: Outcome)
    requires
        coherent(old(sensi)@, old(opers)@, len_h as int),
        old(database)@.len() == old(opers)@.len(),
        old(err)@.len() == old(opers)@.len(),
        old(indegree)@.len() == old(opers)@.len(),
        all_zero(old(indegree)@),
        0 <= target < old(opers)@.len(),
        op.valid(old(opers)@.len() as int, len_h as int),
    ensures
        final(database)@.len() == old(opers)@.len(),
        final(err)@.len() == old(opers)@.len(),
        final(indegree)@.len() == old(opers)@.len(),
        coherent(final(sensi)@, final(opers)@, len_h as int),
        all_zero(final(indegree)@),
        is_outcome_of(
            target,
            op,
            len_h as int,
            old(opers)@,
            old(sensi)@,
            Sheet { values: old(database)@, errors: old(err)@ },
            final(opers)@,
            final(sensi)@,
            Sheet { values: final(database)@, errors: final(err)@ },
            outcome,
        ),
{
    let ghost cols = len_h as int;
    let ghost n = opers@.len() as int;
    let ghost opers0 = opers@;
    let ghost sensi0 = sensi@;
    let ghost start = Sheet { values: database@, errors: err@ };
    let at: usize = target as usize;
    let previous: Ops = opers[at];
    opers[at] = op;
    let ghost proposed = opers@;
    proof {
        assert(proposed =~= opers0.update(target as int, op));
        assert forall|x: int| 0 <= x < n implies occurrences(#[trigger] sensi0[x]@, target)
            == previous.reads(x, cols) by {
            assert(occurrences(sensi0[x]@, target as int as i32) == opers0[target as int].reads(
                x,
                cols,
            ));
        }
    }
    let mut log: Vec<Change> = Vec::new();
    rewire(sensi, target, previous, op, len_h, &mut log, Ghost(lists(sensi0)));
    let ghost sensi1 = sensi@;
    proof {
        assert(counted(sensi1, proposed, cols)) by {
            assert forall|x: int, y: int| 0 <= x < n && 0 <= y < n implies occurrences(
                sensi1[x]@,
                y as i32,
            ) == #[trigger] proposed[y].reads(x, cols) by {
                assert(occurrences(sensi1[x]@, y as i32) == occurrences(sensi0[x]@, y as i32)
                    + only_for(target, y as i32, op.reads(x, cols) - previous.reads(x, cols)));
                assert(occurrences(sensi0[x]@, y as i32) == opers0[y].reads(x, cols));
            }
        }
        assert forall|u: int, v: i32|
            0 <= u < n && v != target && #[trigger] sensi1[u]@.contains(v) implies sensi0[u]@.contains(
            v,
        ) by {
            lemma_occurrences_contains(sensi1[u]@, v);
            lemma_occurrences_contains(sensi0[u]@, v);
            assert(occurrences(sensi1[u]@, v) == occurrences(sensi0[u]@, v) + only_for(
                target,
                v,
                op.reads(u, cols) - previous.reads(u, cols),
            ));
        }
        lemma_new_edges_into_cell(sensi0, sensi1, target);
        assert forall|v: i32| 0 <= v < n implies in_degree(sensi1, v) <= i32::MAX by {
            lemma_in_degree_bounded(sensi1, proposed, cols, v);
        }
        lemma_reach_is_affect(sensi1, proposed, cols, target);
    }
    let topo: Vec<i32> = topo_sort(sensi, target, indegree);
    if topo[0] == NO_CELL {
        proof {
            assert(on_cycle(sensi1, target));
        }
        undo(sensi, &log, target, Ghost(lists(sensi0)));
        opers[at] = previous;
        proof {
            assert(opers@ =~= opers0);
            assert forall|x: int| 0 <= x < n implies #[trigger] sensi@[x]@ == sensi0[x]@ by {
                assert(lists(sensi@)[x] == sensi@[x]@);
                assert(lists(sensi0)[x] == sensi0[x]@);
            }
            lemma_same_lists_coherent(sensi0, sensi@, opers0, cols);
        }
        Outcome { status: 0, delay: 0 }
    } else {
        let ghost order = topo@.skip(1);
        proof {
            assert(!on_cycle(sensi1, target));
            assert(is_recompute_order(sensi1, target, order));
            lemma_still_acyclic(sensi0, sensi1, target, order);
            lemma_order_reads_earlier(sensi1, proposed, cols, target, order);
            assert(topo@.subrange(1, 1 + topo@[0]) =~= order);
            assert forall|i: int| 1 <= i <= topo@[0] implies 0 <= #[trigger] topo@[i] < n
                && proposed[topo@[i] as int].valid(n, cols) by {
                assert(topo@[i] == order[i - 1]);
            }
        }
        let delay: u64 = val_update(topo.as_slice(), database, opers, len_h, err);
        proof {
            let end = Sheet { values: database@, errors: err@ };
            lemma_replay_settles(proposed, cols, start, order);
            assert forall|c: int|
                0 <= c < n && !affects(proposed, cols, target, c as i32) implies #[trigger] database@[c]
                == start.values[c] && err@[c] == start.errors[c] by {
                assert(!reaches(sensi1, target, c as i32));
                assert(!order.contains(c as i32));
                assert(end.values[c] == start.values[c]);
            }
            assert forall|c: int|
                0 <= c < n && affects(proposed, cols, target, c as i32) implies #[trigger] settled(
                proposed,
                cols,
                start,
                end,
                c,
            ) by {
                assert(reaches(sensi1, target, c as i32));
                assert(order.contains(c as i32));
                let p = choose|p: int| 0 <= p < order.len() && order[p] == c as i32;
                assert(settled(proposed, cols, start, end, order[p] as int));
            }
            assert forall|c: i32| 0 <= c < n implies (#[trigger] order.contains(c) <==> affects(
                proposed,
                cols,
                target,
                c,
            )) by {
                assert(reaches(sensi1, target, c) <==> order.contains(c));
            }
            lemma_due_in_any_order(proposed, cols, end, target, order, n as nat);
        }
        Outcome { status: 1, delay }
    }
}

/// The label names a cell whose packed coordinate and linear index are
/// 32-bit numbers.
pub open spec fn names_cell(text: Seq<char>, columns: int) -> bool {
    &&& 0 <= packed(text) <= i32::MAX
    &&& i32::MIN <= cell_index(text, columns) <= i32::MAX
}

/// The text is a number, or a label as in [`names_cell`].
pub open spec fn resolvable(text: Seq<char>, columns: int) -> bool {
    parse_int(text) is Some || names_cell(text, columns)
}

/// The operand that a text stands for: the number it writes, or else the
/// linear index of the cell it names.
pub open spec fn operand_of(text: Seq<char>, columns: int) -> int {
    match parse_int(text) {
        Some(value) => value,
        None => cell_index(text, columns),
    }
}

/// The formula that the parts of an edit ask for: its code is the second
/// part, its operands are the third and the fourth.
pub open spec fn requested(parts: Seq<String>, columns: int) -> Ops {
    Ops {
        code: code_of(parts[1]@),
        cell1: operand_of(parts[2]@, columns) as i32,
        cell2: operand_of(parts[3]@, columns) as i32,
    }
}

/// The linear index of the cell that a label names in a grid that is `len_h`
/// wide, if the label is as [`names_cell`] asks.
pub fn probe_cell(text: &str, len_h: i32) -> (index: Option<i32>)
    ensures
        index is Some <==> names_cell(text@, len_h as int),
        index is Some ==> index->0 == cell_index(text@, len_h as int),
{
    let chars = to_chars(text);
    let (col, row) = label_parts(chars.as_slice());
    if col > 0xffff_ffff {
        return None;
    }
    let k: i64 = col * 1000 + row as i64;
    if k < 0 || k > 0x7fff_ffff {
        return None;
    }
    assert(-1000 * 0x8000_0000 <= (k % 1000 - 1) * len_h <= 1000 * 0x8000_0000) by (nonlinear_arith)
        requires
            0 <= k % 1000 < 1000,
            -0x8000_0000 <= len_h <= 0x7fff_ffff,
    ;
    let index: i64 = k / 1000 + (k % 1000 - 1) * (len_h as i64);
    if index < -0x8000_0000 || index > 0x7fff_ffff {
        return None;
    }
    Some(index as i32)
}

/// The operand that a text stands for, if the text is as [`resolvable`] asks.
pub fn probe_operand(text: &str, len_h: i32) -> (operand: Option<i32>)
    ensures
        operand is Some <==> resolvable(text@, len_h as int),
        operand is Some ==> operand->0 == operand_of(text@, len_h as int),
{
    let chars = to_chars(text);
    proof {
        assert(chars@.subrange(0, chars@.len() as int) =~= text@);
    }
    match parse_i32(chars.as_slice(), 0, chars.len()) {
        Some(value) => Some(value),
        None => probe_cell(text, len_h),
    }
}

/// Resolves the text of an operand.
fn resolve(text: &str, len_h: i32) -> (operand: i32)
    requires
        resolvable(text@, len_h as int),
    ensures
        operand == operand_of(text@, len_h as int),
{
    let chars = to_chars(text);
    proof {
        assert(chars@.subrange(0, chars@.len() as int) =~= text@);
    }
    match parse_i32(chars.as_slice(), 0, chars.len()) {
        Some(value) => value,
        None => cell_to_ind(text, len_h),
    }
}

/// The parts of an edit can be resolved, and ask for a formula that reads
/// cells of the grid only, in a cell of a grid whose stores have `len`
/// entries.
pub open spec fn applicable(parts: Seq<String>, columns: int, len: int) -> bool {
    &&& parts.len() >= 4
    &&& names_cell(parts[0]@, columns)
    &&& resolvable(parts[2]@, columns)
    &&& resolvable(parts[3]@, columns)
    &&& 0 <= cell_index(parts[0]@, columns) < len
    &&& requested(parts, columns).valid(len, columns)
}

/// Applies the edit whose parts are given as text: the label of the cell to
/// edit, the code of the formula, and the two operands, each a number or the
/// label of a cell.  [`is_outcome_of`] says what the edit does.
pub fn cell_update(
    inp_arr: &[String],
    database: &mut [i32],
    sensi: &mut [Vec<i32>],
    opers: &mut [Ops],
    len_h: i32,
    indegree: &mut [i32],
    err: &mut [bool],
) -> (outcome: Outcome)
    requires
        applicable(inp_arr@, len_h as int, old(opers)@.len() as int),
        coherent(old(sensi)@, old(opers)@, len_h as int),
        old(database)@.len() == old(opers)@.len(),
        old(err)@.len() == old(opers)@.len(),
        old(indegree)@.len() == old(opers)@.len(),
        all_zero(old(indegree)@),
    ensures
        final(database)@.len() == old(opers)@.len(),
        final(err)@.len() == old(opers)@.len(),
        final(indegree)@.len() == old(opers)@.len(),
        coherent(final(sensi)@, final(opers)@, len_h as int),
        all_zero(final(indegree)@),
        is_outcome_of(
            cell_index(inp_arr@[0]@, len_h as int) as i32,
            requested(inp_arr@, len_h as int),
            len_h as int,
            old(opers)@,
            old(sensi)@,
            Sheet { values: old(database)@, errors: old(err)@ },
            final(opers)@,
            final(sensi)@,
            Sheet { values: final(database)@, errors: final(err)@ },
            outcome,
        ),
{
    let target: i32 = cell_to_ind(inp_arr[0].as_str(), len_h);
    let code = OpCode::decode(inp_arr[1].as_str());
    let cell1: i32 = resolve(inp_arr[2].as_str(), len_h);
    let cell2: i32 = resolve(inp_arr[3].as_str(), len_h);
    install(target, Ops { code, cell1, cell2 }, database, sensi, opers, len_h, indegree, err)
}


/// [`cell_update`] for parts of any kind: applies the edit if its parts are
/// [`applicable`], and changes nothing if they are not.
pub fn try_cell_update(
    inp_arr: &[String],
    database: &mut [i32],
    sensi: &mut [Vec<i32>],
    opers: &mut [Ops],
    len_h: i32,
    indegree: &mut [i32],
    err: &mut [bool],
) -> (outcome: Option<Outcome>)
    requires
        coherent(old(sensi)@, old(opers)@, len_h as int),
        old(database)@.len() == old(opers)@.len(),
        old(err)@.len() == old(opers)@.len(),
        old(indegree)@.len() == old(opers)@.len(),
        all_zero(old(indegree)@),
    ensures
        final(database)@.len() == old(opers)@.len(),
        final(err)@.len() == old(opers)@.len(),
        final(indegree)@.len() == old(opers)@.len(),
        coherent(final(sensi)@, final(opers)@, len_h as int),
        all_zero(final(indegree)@),
        outcome is Some <==> applicable(inp_arr@, len_h as int, old(opers)@.len() as int),
        outcome is Some ==> is_outcome_of(
            cell_index(inp_arr@[0]@, len_h as int) as i32,
            requested(inp_arr@, len_h as int),
            len_h as int,
            old(opers)@,
            old(sensi)@,
            Sheet { values: old(database)@, errors: old(err)@ },
            final(opers)@,
            final(sensi)@,
            Sheet { values: final(database)@, errors: final(err)@ },
            outcome->0,
        ),
        outcome is None ==> {
            &&& final(opers)@ == old(opers)@
            &&& final(sensi)@ == old(sensi)@
            &&& final(database)@ == old(database)@
            &&& final(err)@ == old(err)@
        },
{
    if inp_arr.len() < 4 {
        return None;
    }
    let target: i32 = match probe_cell(inp_arr[0].as_str(), len_h) {
        Some(target) => target,
        None => {
            return None;
        },
    };
    let cell1: i32 = match probe_operand(inp_arr[2].as_str(), len_h) {
        Some(operand) => operand,
        None => {
            return None;
        },
    };
    let cell2: i32 = match probe_operand(inp_arr[3].as_str(), len_h) {
        Some(operand) => operand,
        None => {
            return None;
        },
    };
    let op = Ops { code: OpCode::decode(inp_arr[1].as_str()), cell1, cell2 };
    if target < 0 || target as usize >= opers.len() || !op.is_valid(opers.len(), len_h) {
        return None;
    }
    Some(install(target, op, database, sensi, opers, len_h, indegree, err))
}


} // verus!
