//! Why recomputing in dependency order settles the grid.
//!
//! A formula's result depends only on the cells it reads and on what its own
//! cell held before.  So when the affected cells are recomputed in an order
//! in which each comes after all cells it reads, every one of them ends up
//! holding what its formula gives on the final stores, whatever the order was.

use crate::address::{
    column_of,
    lemma_coordinate_round_trip,
    lemma_index_splits,
    linear_index,
    row_of,
};
use crate::evaluate::{delay_after, error_after, replay, step, value_after, Sheet};
use crate::numeric::{lemma_integer_sqrt_exists, lemma_wrap_fits, quotient};
use crate::operation::{in_rect, OpCode, Ops};
use crate::operations::{
    cell_value,
    column_total,
    is_range_max,
    is_range_min,
    lemma_count_positive,
    lemma_quotient_bounded,
    lemma_range_max_unique,
    lemma_range_min_unique,
    lemma_range_total_bounded,
    lemma_rect_between_corners,
    range_count,
    range_error,
    range_max,
    range_mean,
    range_min,
    range_stdev,
    range_sum,
    range_total,
    rect_total,
    squared_distance,
};
use vstd::prelude::*;

verus! {

/// Two terms that agree on a column add up to the same over it.
proof fn lemma_column_total_agrees(
    t1: spec_fn(int) -> int,
    t2: spec_fn(int) -> int,
    columns: int,
    col: int,
    top: int,
    bottom: int,
)
    requires
        forall|row: int|
            top <= row <= bottom ==> t1(#[trigger] linear_index(col, row, columns)) == t2(
                linear_index(col, row, columns),
            ),
    ensures
        column_total(t1, columns, col, top, bottom) == column_total(t2, columns, col, top, bottom),
    decreases bottom - top + 1,
{
    if bottom >= top {
        lemma_column_total_agrees(t1, t2, columns, col, top, bottom - 1);
        assert(t1(linear_index(col, bottom, columns)) == t2(linear_index(col, bottom, columns)));
    }
}

/// Two terms that agree on a rectangle add up to the same over it.
proof fn lemma_rect_total_agrees(
    t1: spec_fn(int) -> int,
    t2: spec_fn(int) -> int,
    columns: int,
    left: int,
    right: int,
    top: int,
    bottom: int,
)
    requires
        forall|col: int, row: int|
            left <= col <= right && top <= row <= bottom ==> t1(
                #[trigger] linear_index(col, row, columns),
            ) == t2(linear_index(col, row, columns)),
    ensures
        rect_total(t1, columns, left, right, top, bottom) == rect_total(
            t2,
            columns,
            left,
            right,
            top,
            bottom,
        ),
    decreases right - left + 1,
{
    if right >= left {
        lemma_rect_total_agrees(t1, t2, columns, left, right - 1, top, bottom);
        lemma_column_total_agrees(t1, t2, columns, right, top, bottom);
    }
}

/// Two terms that agree on the cells of a rectangle add up to the same over
/// it.
proof fn lemma_range_total_agrees(
    t1: spec_fn(int) -> int,
    t2: spec_fn(int) -> int,
    c1: int,
    c2: int,
    columns: int,
)
    requires
        columns >= 1,
        c1 >= 1,
        c2 >= 1,
        forall|k: int| #[trigger] in_rect(k, c1, c2, columns) ==> t1(k) == t2(k),
    ensures
        range_total(t1, c1, c2, columns) == range_total(t2, c1, c2, columns),
{
    lemma_index_splits(c1, columns);
    lemma_index_splits(c2, columns);
    let left = column_of(c1, columns);
    let right = column_of(c2, columns);
    let top = row_of(c1, columns);
    let bottom = row_of(c2, columns);
    assert forall|col: int, row: int| left <= col <= right && top <= row <= bottom implies t1(
        #[trigger] linear_index(col, row, columns),
    ) == t2(linear_index(col, row, columns)) by {
        lemma_coordinate_round_trip(col, row, columns);
        assert(in_rect(linear_index(col, row, columns), c1, c2, columns));
    }
    lemma_rect_total_agrees(t1, t2, columns, left, right, top, bottom);
}

/// The least value among the cells of the rectangle that lie below `upto`.
proof fn lemma_least_below(values: Seq<i32>, c1: int, c2: int, columns: int, upto: nat) -> (m:
    int)
    ensures
        m <= i32::MAX,
        forall|k: int| #[trigger] in_rect(k, c1, c2, columns) && k < upto ==> m <= values[k],
        m == i32::MAX || exists|k: int|
            #[trigger] in_rect(k, c1, c2, columns) && k < upto && values[k] == m,
    decreases upto,
{
    if upto == 0 {
        i32::MAX as int
    } else {
        let below = lemma_least_below(values, c1, c2, columns, (upto - 1) as nat);
        let k = upto - 1;
        if in_rect(k, c1, c2, columns) && values[k] < below {
            values[k] as int
        } else {
            if below != i32::MAX {
                let w = choose|w: int|
                    #[trigger] in_rect(w, c1, c2, columns) && w < upto - 1 && values[w] == below;
                assert(in_rect(w, c1, c2, columns) && w < upto && values[w] == below);
            }
            below
        }
    }
}

/// The greatest value among the cells of the rectangle that lie below `upto`.
proof fn lemma_greatest_below(values: Seq<i32>, c1: int, c2: int, columns: int, upto: nat) -> (m:
    int)
    ensures
        m >= i32::MIN,
        forall|k: int| #[trigger] in_rect(k, c1, c2, columns) && k < upto ==> m >= values[k],
        m == i32::MIN || exists|k: int|
            #[trigger] in_rect(k, c1, c2, columns) && k < upto && values[k] == m,
    decreases upto,
{
    if upto == 0 {
        i32::MIN as int
    } else {
        let below = lemma_greatest_below(values, c1, c2, columns, (upto - 1) as nat);
        let k = upto - 1;
        if in_rect(k, c1, c2, columns) && values[k] > below {
            values[k] as int
        } else {
            if below != i32::MIN {
                let w = choose|w: int|
                    #[trigger] in_rect(w, c1, c2, columns) && w < upto - 1 && values[w] == below;
                assert(in_rect(w, c1, c2, columns) && w < upto && values[w] == below);
            }
            below
        }
    }
}

/// Every rectangle has a least value, and `range_min` is it.
pub proof fn lemma_range_min_exists(values: Seq<i32>, c1: int, c2: int, columns: int)
    requires
        columns >= 1,
        c1 >= 1,
        c2 >= 1,
    ensures
        is_range_min(values, c1, c2, columns, range_min(values, c1, c2, columns)),
{
    let m = lemma_least_below(values, c1, c2, columns, (c2 + 1) as nat);
    assert forall|k: int| #[trigger] in_rect(k, c1, c2, columns) implies m <= values[k] by {
        lemma_rect_between_corners(k, c1, c2, columns);
    }
    assert(is_range_min(values, c1, c2, columns, m));
}

/// Every rectangle has a greatest value, and `range_max` is it.
pub proof fn lemma_range_max_exists(values: Seq<i32>, c1: int, c2: int, columns: int)
    requires
        columns >= 1,
        c1 >= 1,
        c2 >= 1,
    ensures
        is_range_max(values, c1, c2, columns, range_max(values, c1, c2, columns)),
{
    let m = lemma_greatest_below(values, c1, c2, columns, (c2 + 1) as nat);
    assert forall|k: int| #[trigger] in_rect(k, c1, c2, columns) implies m >= values[k] by {
        lemma_rect_between_corners(k, c1, c2, columns);
    }
    assert(is_range_max(values, c1, c2, columns, m));
}

/// The aggregates over a rectangle depend on nothing but the cells of the
/// rectangle.
pub proof fn lemma_aggregates_agree(
    v1: Seq<i32>,
    e1: Seq<bool>,
    v2: Seq<i32>,
    e2: Seq<bool>,
    c1: int,
    c2: int,
    columns: int,
)
    requires
        columns >= 1,
        c1 >= 1,
        c2 >= 1,
        forall|k: int| #[trigger] in_rect(k, c1, c2, columns) ==> v1[k] == v2[k] && e1[k] == e2[k],
    ensures
        range_sum(v1, c1, c2, columns) == range_sum(v2, c1, c2, columns),
        range_min(v1, c1, c2, columns) == range_min(v2, c1, c2, columns),
        range_max(v1, c1, c2, columns) == range_max(v2, c1, c2, columns),
        range_mean(v1, c1, c2, columns) == range_mean(v2, c1, c2, columns),
        range_stdev(v1, c1, c2, columns) == range_stdev(v2, c1, c2, columns),
        range_error(e1, c1, c2, columns) == range_error(e2, c1, c2, columns),
{
    lemma_range_total_agrees(cell_value(v1), cell_value(v2), c1, c2, columns);
    let mean = range_mean(v1, c1, c2, columns);
    lemma_range_total_agrees(
        squared_distance(v1, mean),
        squared_distance(v2, mean),
        c1,
        c2,
        columns,
    );
    lemma_range_min_exists(v1, c1, c2, columns);
    lemma_range_min_exists(v2, c1, c2, columns);
    let least = range_min(v1, c1, c2, columns);
    assert(is_range_min(v2, c1, c2, columns, least)) by {
        if least != i32::MAX {
            let k = choose|k: int| #[trigger] in_rect(k, c1, c2, columns) && v1[k] == least;
            assert(in_rect(k, c1, c2, columns) && v2[k] == least);
        }
    }
    lemma_range_min_unique(v2, c1, c2, columns, least, range_min(v2, c1, c2, columns));
    lemma_range_max_exists(v1, c1, c2, columns);
    lemma_range_max_exists(v2, c1, c2, columns);
    let greatest = range_max(v1, c1, c2, columns);
    assert(is_range_max(v2, c1, c2, columns, greatest)) by {
        if greatest != i32::MIN {
            let k = choose|k: int| #[trigger] in_rect(k, c1, c2, columns) && v1[k] == greatest;
            assert(in_rect(k, c1, c2, columns) && v2[k] == greatest);
        }
    }
    lemma_range_max_unique(v2, c1, c2, columns, greatest, range_max(v2, c1, c2, columns));
    if range_error(e1, c1, c2, columns) {
        let k = choose|k: int| #[trigger] in_rect(k, c1, c2, columns) && e1[k];
        assert(in_rect(k, c1, c2, columns) && e2[k]);
    }
    if range_error(e2, c1, c2, columns) {
        let k = choose|k: int| #[trigger] in_rect(k, c1, c2, columns) && e2[k];
        assert(in_rect(k, c1, c2, columns) && e1[k]);
    }
}

/// What evaluating a formula gives is a 32-bit number.
pub proof fn lemma_value_fits(
    op: Ops,
    values: Seq<i32>,
    errors: Seq<bool>,
    own: int,
    columns: int,
    len: int,
)
    requires
        columns >= 1,
        op.valid(len, columns),
    ensures
        i32::MIN <= value_after(op, values, errors, own, columns) <= i32::MAX,
{
    match op.code {
        OpCode::Arith(first, second, _) => {
            let a = crate::evaluate::operand(first, op.cell1, values);
            let b = crate::evaluate::operand(second, op.cell2, values);
            lemma_wrap_fits(a + b);
            lemma_wrap_fits(a - b);
            lemma_wrap_fits(a * b);
            lemma_wrap_fits(quotient(a, b));
        },
        OpCode::Range(aggregate) => {
            let c1 = op.cell1 as int;
            let c2 = op.cell2 as int;
            lemma_wrap_fits(range_sum(values, c1, c2, columns));
            lemma_range_min_exists(values, c1, c2, columns);
            lemma_range_max_exists(values, c1, c2, columns);
            lemma_count_positive(c1, c2, columns);
            lemma_range_total_bounded(
                cell_value(values),
                c1,
                c2,
                columns,
                i32::MIN as int,
                i32::MAX as int,
            );
            lemma_quotient_bounded(
                range_sum(values, c1, c2, columns),
                range_count(c1, c2, columns),
                i32::MIN as int,
                i32::MAX as int,
            );
            let mean = range_mean(values, c1, c2, columns);
            let far: int = 0x1_0000_0000_0000_0000int;
            assert forall|k: int| #[trigger] in_rect(k, c1, c2, columns) implies 0
                <= squared_distance(values, mean)(k) <= far by {
                let d = values[k] - mean;
                assert(0 <= d * d <= 0x1_0000_0000_0000_0000) by (nonlinear_arith)
                    requires
                        -0x1_0000_0000 <= d <= 0x1_0000_0000,
                ;
            }
            lemma_range_total_bounded(squared_distance(values, mean), c1, c2, columns, 0, far);
            let spread = range_total(squared_distance(values, mean), c1, c2, columns);
            assert(spread >= 0) by (nonlinear_arith)
                requires
                    0 * range_count(c1, c2, columns) <= spread,
            ;
            vstd::arithmetic::div_mod::lemma_div_pos_is_pos(spread, range_count(c1, c2, columns));
            lemma_integer_sqrt_exists(spread / range_count(c1, c2, columns));
        },
        _ => {},
    }
}

/// What evaluating a formula gives depends on nothing but the cells it reads
/// and its own cell.
pub proof fn lemma_evaluation_frame(
    op: Ops,
    v1: Seq<i32>,
    e1: Seq<bool>,
    v2: Seq<i32>,
    e2: Seq<bool>,
    own: int,
    columns: int,
    len: int,
)
    requires
        columns >= 1,
        op.valid(len, columns),
        v1[own] == v2[own],
        e1[own] == e2[own],
        forall|x: int|
            0 <= x < len && #[trigger] op.reads(x, columns) > 0 ==> v1[x] == v2[x] && e1[x]
                == e2[x],
    ensures
        value_after(op, v1, e1, own, columns) == value_after(op, v2, e2, own, columns),
        error_after(op, v1, e1, own, columns) == error_after(op, v2, e2, own, columns),
        delay_after(op, v1, e1) == delay_after(op, v2, e2),
{
    if op.code.first_is_cell() {
        assert(op.reads(op.cell1 as int, columns) > 0);
    }
    if op.code.second_is_cell() {
        assert(op.reads(op.cell2 as int, columns) > 0);
    }
    if op.code.is_range() {
        assert forall|k: int|
            #[trigger] in_rect(k, op.cell1 as int, op.cell2 as int, columns) implies v1[k] == v2[k]
            && e1[k] == e2[k] by {
            lemma_rect_between_corners(k, op.cell1 as int, op.cell2 as int, columns);
            assert(op.reads(k, columns) > 0);
        }
        lemma_aggregates_agree(v1, e1, v2, e2, op.cell1 as int, op.cell2 as int, columns);
    }
}

/// The cells of `order` are cells of the grid with formulas that can be
/// evaluated, each listed once and none before a cell of `order` that it
/// reads.
pub open spec fn reads_earlier(opers: Seq<Ops>, columns: int, order: Seq<i32>) -> bool {
    &&& order.no_duplicates()
    &&& forall|p: int|
        0 <= p < order.len() ==> 0 <= #[trigger] order[p] < opers.len() && opers[order[p] as int].valid(
            opers.len() as int,
            columns,
        )
    &&& forall|p: int, q: int|
        0 <= p < order.len() && 0 <= q < order.len() && #[trigger] opers[order[p] as int].reads(
            order[q] as int,
            columns,
        ) > 0 ==> q < p
}

/// The cell `c` holds in `after` what its formula gives on the stores of
/// `after`, given that it held `before.values[c]` before it was evaluated.
pub open spec fn settled(opers: Seq<Ops>, columns: int, before: Sheet, after: Sheet, c: int) -> bool {
    &&& after.values[c] == value_after(
        opers[c],
        after.values.update(c, before.values[c]),
        after.errors.update(c, before.errors[c]),
        c,
        columns,
    )
    &&& after.errors[c] == error_after(
        opers[c],
        after.values.update(c, before.values[c]),
        after.errors.update(c, before.errors[c]),
        c,
        columns,
    )
}

/// The seconds that the formula of the cell `c` takes on the stores of
/// `after`.
pub open spec fn due(opers: Seq<Ops>, after: Sheet, c: int) -> int {
    delay_after(opers[c], after.values, after.errors)
}

/// The sum of [`due`] over the cells of `order`.
pub open spec fn due_along(opers: Seq<Ops>, after: Sheet, order: Seq<i32>) -> int
    decreases order.len(),
{
    if order.len() == 0 {
        0
    } else {
        due_along(opers, after, order.drop_last()) + due(opers, after, order.last() as int)
    }
}

/// Recomputing the cells of `order` one after the other leaves every other
/// cell as it was and every cell of `order` settled.
pub proof fn lemma_replay_settles(opers: Seq<Ops>, columns: int, start: Sheet, order: Seq<i32>)
    requires
        columns >= 1,
        start.values.len() == opers.len(),
        start.errors.len() == opers.len(),
        reads_earlier(opers, columns, order),
    ensures
        replay(start, opers, columns, order).values.len() == opers.len(),
        replay(start, opers, columns, order).errors.len() == opers.len(),
        forall|c: int|
            0 <= c < opers.len() && !order.contains(c as i32) ==> #[trigger] replay(
                start,
                opers,
                columns,
                order,
            ).values[c] == start.values[c] && replay(start, opers, columns, order).errors[c]
                == start.errors[c],
        forall|p: int|
            0 <= p < order.len() ==> settled(
                opers,
                columns,
                start,
                replay(start, opers, columns, order),
                #[trigger] order[p] as int,
            ),
        crate::evaluate::replay_delay(start, opers, columns, order) == due_along(
            opers,
            replay(start, opers, columns, order),
            order,
        ),
    decreases order.len(),
{
    let end = replay(start, opers, columns, order);
    if order.len() > 0 {
        let prefix = order.drop_last();
        let last = order.len() - 1;
        let c = order[last] as int;
        let mid = replay(start, opers, columns, prefix);
        assert(reads_earlier(opers, columns, prefix)) by {
            assert forall|p: int, q: int|
                0 <= p < prefix.len() && 0 <= q < prefix.len() && #[trigger] opers[prefix[p] as int].reads(
                    prefix[q] as int,
                    columns,
                ) > 0 implies q < p by {
                assert(prefix[p] == order[p] && prefix[q] == order[q]);
                assert(opers[order[p] as int].reads(order[q] as int, columns) > 0);
            }
            assert forall|p: int| 0 <= p < prefix.len() implies 0 <= #[trigger] prefix[p]
                < opers.len() && opers[prefix[p] as int].valid(opers.len() as int, columns) by {
                assert(prefix[p] == order[p]);
            }
        }
        lemma_replay_settles(opers, columns, start, prefix);
        assert(end == step(mid, opers, columns, c));
        assert(!prefix.contains(c as i32)) by {
            if prefix.contains(c as i32) {
                let p = choose|p: int| 0 <= p < prefix.len() && prefix[p] == c as i32;
                assert(order[p] == order[last]);
            }
        }
        assert(mid.values[c] == start.values[c] && mid.errors[c] == start.errors[c]);
        assert forall|x: int| 0 <= x < opers.len() && !order.contains(x as i32) implies #[trigger] end.values[x]
            == start.values[x] && end.errors[x] == start.errors[x] by {
            assert(x != c) by {
                if x == c {
                    assert(order[last] == x as i32);
                }
            }
            if prefix.contains(x as i32) {
                let p = choose|p: int| 0 <= p < prefix.len() && prefix[p] == x as i32;
                assert(order[p] == x as i32);
            }
            assert(mid.values[x] == start.values[x]);
        }
        assert(end.values.update(c, start.values[c]) =~= mid.values);
        assert(end.errors.update(c, start.errors[c]) =~= mid.errors);
        lemma_value_fits(opers[c], mid.values, mid.errors, c, columns, opers.len() as int);
        assert(settled(opers, columns, start, end, c));
        assert forall|p: int| 0 <= p < order.len() implies settled(
            opers,
            columns,
            start,
            end,
            #[trigger] order[p] as int,
        ) by {
            if p < last {
                let d = order[p] as int;
                assert(prefix[p] == order[p]);
                assert(settled(opers, columns, start, mid, prefix[p] as int));
                assert(d != c);
                assert forall|x: int|
                    0 <= x < opers.len() && #[trigger] opers[d].reads(x, columns) > 0 implies x
                    != c by {
                    if x == c {
                        assert(opers[order[p] as int].reads(order[last] as int, columns) > 0);
                    }
                }
                lemma_evaluation_frame(
                    opers[d],
                    mid.values.update(d, start.values[d]),
                    mid.errors.update(d, start.errors[d]),
                    end.values.update(d, start.values[d]),
                    end.errors.update(d, start.errors[d]),
                    d,
                    columns,
                    opers.len() as int,
                );
            }
        }
        assert forall|k: int| 0 <= k < prefix.len() implies 0 <= #[trigger] prefix[k] < opers.len()
            && opers[prefix[k] as int].valid(opers.len() as int, columns) && opers[prefix[k] as int].reads(
            c,
            columns,
        ) == 0 by {
            assert(prefix[k] == order[k]);
            if opers[order[k] as int].reads(order[last] as int, columns) > 0 {
                assert(last < k);
            }
        }
        lemma_due_along_frame(opers, columns, mid, end, prefix, c);
        assert forall|x: int| #[trigger] opers[c].reads(x, columns) > 0 implies x != c by {
            if x == c {
                assert(opers[order[last] as int].reads(order[last] as int, columns) > 0);
            }
        }
        lemma_delay_frame(
            opers[c],
            mid.values,
            mid.errors,
            end.values,
            end.errors,
            columns,
            opers.len() as int,
        );
    }
}


/// The seconds that a formula takes depend on nothing but the cells it reads.
proof fn lemma_delay_frame(
    op: Ops,
    v1: Seq<i32>,
    e1: Seq<bool>,
    v2: Seq<i32>,
    e2: Seq<bool>,
    columns: int,
    len: int,
)
    requires
        op.valid(len, columns),
        forall|x: int|
            0 <= x < len && #[trigger] op.reads(x, columns) > 0 ==> v1[x] == v2[x] && e1[x]
                == e2[x],
    ensures
        delay_after(op, v1, e1) == delay_after(op, v2, e2),
{
    if op.code.first_is_cell() {
        assert(op.reads(op.cell1 as int, columns) > 0);
    }
}

/// The seconds that the formulas of `cells` take are the same on two stores
/// that differ in the cell `c` alone, if none of them reads `c`.
proof fn lemma_due_along_frame(
    opers: Seq<Ops>,
    columns: int,
    s1: Sheet,
    s2: Sheet,
    cells: Seq<i32>,
    c: int,
)
    requires
        forall|x: int| 0 <= x < opers.len() && x != c ==> #[trigger] s1.values[x] == s2.values[x],
        forall|x: int| 0 <= x < opers.len() && x != c ==> #[trigger] s1.errors[x] == s2.errors[x],
        forall|k: int|
            0 <= k < cells.len() ==> 0 <= #[trigger] cells[k] < opers.len() && opers[cells[k] as int].valid(
                opers.len() as int,
                columns,
            ) && opers[cells[k] as int].reads(c, columns) == 0,
    ensures
        due_along(opers, s1, cells) == due_along(opers, s2, cells),
    decreases cells.len(),
{
    if cells.len() > 0 {
        let fewer = cells.drop_last();
        assert forall|k: int| 0 <= k < fewer.len() implies 0 <= #[trigger] fewer[k] < opers.len()
            && opers[fewer[k] as int].valid(opers.len() as int, columns) && opers[fewer[k] as int].reads(
            c,
            columns,
        ) == 0 by {
            assert(fewer[k] == cells[k]);
        }
        lemma_due_along_frame(opers, columns, s1, s2, fewer, c);
        let d = cells[cells.len() - 1];
        assert(opers[d as int].reads(c, columns) == 0);
        assert forall|x: int|
            0 <= x < opers.len() && #[trigger] opers[d as int].reads(x, columns) > 0 implies s1.values[x]
            == s2.values[x] && s1.errors[x] == s2.errors[x] by {
            assert(x != c);
        }
        lemma_delay_frame(
            opers[d as int],
            s1.values,
            s1.errors,
            s2.values,
            s2.errors,
            columns,
            opers.len() as int,
        );
    }
}


} // verus!
