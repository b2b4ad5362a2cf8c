//! How the readers' lists and the formulas hang together.
//!
//! The formulas are what the grid holds; the readers' lists are derived from
//! them, and are kept so that each cell is listed as a reader of another
//! exactly as often as its formula reads that other.

use crate::graph::{
    acyclic,
    acyclic_besides,
    all_nodes,
    in_degree,
    inflow,
    is_path,
    is_recompute_order,
    lemma_occurrences_contains,
    occurrences,
    on_cycle,
    ranked,
    reaches,
    stands_after,
    well_formed,
    NO_CELL,
};
use crate::operation::Ops;
use crate::evaluate::Sheet;
use crate::settle::{due, due_along, reads_earlier};
use vstd::prelude::*;

verus! {

/// Each cell is listed as a reader of another as often as its formula reads
/// that other.
pub open spec fn counted(sensi: Seq<Vec<i32>>, opers: Seq<Ops>, columns: int) -> bool {
    forall|x: int, y: int|
        0 <= x < opers.len() && 0 <= y < opers.len() ==> occurrences(sensi[x]@, y as i32)
            == #[trigger] opers[y].reads(x, columns)
}

/// The stores of a grid fit together: every formula reads cells of the grid
/// only, the readers' lists say who reads whom, and no cell depends on
/// itself.
pub open spec fn coherent(sensi: Seq<Vec<i32>>, opers: Seq<Ops>, columns: int) -> bool {
    &&& columns >= 1
    &&& opers.len() <= i32::MAX
    &&& sensi.len() == opers.len()
    &&& well_formed(sensi)
    &&& forall|y: int|
        0 <= y < opers.len() ==> (#[trigger] opers[y]).valid(opers.len() as int, columns)
    &&& counted(sensi, opers, columns)
    &&& acyclic(sensi)
}

/// `p` leads from cell to cell, each read by the formula of the next.
pub open spec fn is_read_walk(opers: Seq<Ops>, columns: int, p: Seq<i32>) -> bool {
    &&& p.len() >= 1
    &&& forall|k: int| 0 <= k < p.len() ==> 0 <= #[trigger] p[k] < opers.len()
    &&& forall|k: int|
        0 <= k < p.len() - 1 ==> opers[p[k + 1] as int].reads(#[trigger] p[k] as int, columns) > 0
}

/// The value of `to` depends on the value of `from`: `to` is `from`, or reads
/// it, or reads a cell that depends on it.
pub open spec fn affects(opers: Seq<Ops>, columns: int, from: i32, to: i32) -> bool {
    exists|p: Seq<i32>| #[trigger] is_read_walk(opers, columns, p) && p[0] == from && p.last() == to
}

/// The value of `cell` depends on itself.
pub open spec fn feeds_itself(opers: Seq<Ops>, columns: int, cell: i32) -> bool {
    exists|p: Seq<i32>| #[trigger]
        is_read_walk(opers, columns, p) && p.len() >= 2 && p[0] == cell && p.last() == cell
}

/// A cell is listed as a reader exactly where its formula reads.
pub proof fn lemma_listed_iff_read(
    sensi: Seq<Vec<i32>>,
    opers: Seq<Ops>,
    columns: int,
    x: int,
    y: int,
)
    requires
        counted(sensi, opers, columns),
        0 <= x < opers.len(),
        0 <= y < opers.len(),
        opers.len() <= i32::MAX,
    ensures
        sensi[x]@.contains(y as i32) <==> opers[y].reads(x, columns) > 0,
{
    lemma_occurrences_contains(sensi[x]@, y as i32);
    assert(occurrences(sensi[x]@, y as i32) == opers[y].reads(x, columns));
}

/// The walks along the readers' lists are the walks from a cell to its
/// readers.
pub proof fn lemma_walks_agree(sensi: Seq<Vec<i32>>, opers: Seq<Ops>, columns: int, p: Seq<i32>)
    requires
        counted(sensi, opers, columns),
        sensi.len() == opers.len(),
        opers.len() <= i32::MAX,
    ensures
        is_path(sensi, p) <==> is_read_walk(opers, columns, p),
{
    if is_path(sensi, p) {
        assert forall|k: int| 0 <= k < p.len() - 1 implies opers[p[k + 1] as int].reads(
            #[trigger] p[k] as int,
            columns,
        ) > 0 by {
            assert(0 <= p[k + 1] < sensi.len());
            lemma_listed_iff_read(sensi, opers, columns, p[k] as int, p[k + 1] as int);
        }
    }
    if is_read_walk(opers, columns, p) {
        assert forall|k: int| 0 <= k < p.len() - 1 implies sensi[#[trigger] p[k] as int]@.contains(
            p[k + 1],
        ) by {
            assert(0 <= p[k + 1] < sensi.len());
            lemma_listed_iff_read(sensi, opers, columns, p[k] as int, p[k + 1] as int);
        }
    }
}

/// What can be reached along the readers' lists is what depends on the cell.
pub proof fn lemma_reach_is_affect(
    sensi: Seq<Vec<i32>>,
    opers: Seq<Ops>,
    columns: int,
    from: i32,
)
    requires
        counted(sensi, opers, columns),
        sensi.len() == opers.len(),
        opers.len() <= i32::MAX,
    ensures
        forall|to: i32| #[trigger] reaches(sensi, from, to) <==> affects(opers, columns, from, to),
        on_cycle(sensi, from) <==> feeds_itself(opers, columns, from),
{
    assert forall|to: i32| #[trigger] reaches(sensi, from, to) <==> affects(
        opers,
        columns,
        from,
        to,
    ) by {
        if reaches(sensi, from, to) {
            let p = choose|p: Seq<i32>| #[trigger] is_path(sensi, p) && p[0] == from && p.last() == to;
            lemma_walks_agree(sensi, opers, columns, p);
        }
        if affects(opers, columns, from, to) {
            let p = choose|p: Seq<i32>| #[trigger]
                is_read_walk(opers, columns, p) && p[0] == from && p.last() == to;
            lemma_walks_agree(sensi, opers, columns, p);
        }
    }
    if on_cycle(sensi, from) {
        let p = choose|p: Seq<i32>| #[trigger]
            is_path(sensi, p) && p.len() >= 2 && p[0] == from && p.last() == from;
        lemma_walks_agree(sensi, opers, columns, p);
    }
    if feeds_itself(opers, columns, from) {
        let p = choose|p: Seq<i32>| #[trigger]
            is_read_walk(opers, columns, p) && p.len() >= 2 && p[0] == from && p.last() == from;
        lemma_walks_agree(sensi, opers, columns, p);
    }
}

/// The edges into `v` from the first `m` cells are no more than the reads of
/// the formula of `v`.
proof fn lemma_inflow_prefix(sensi: Seq<Vec<i32>>, op: Ops, columns: int, v: i32, m: nat)
    requires
        m <= sensi.len() <= i32::MAX,
        forall|x: int|
            0 <= x < sensi.len() ==> occurrences(#[trigger] sensi[x]@, v) == op.reads(x, columns),
    ensures
        op.code.is_range() ==> inflow(sensi, all_nodes(m), v) <= if m >= 1 {
            m - 1
        } else {
            0
        },
        !op.code.is_range() ==> inflow(sensi, all_nodes(m), v) <= (if op.code.first_is_cell()
            && op.cell1 < m {
            1int
        } else {
            0int
        }) + (if op.code.second_is_cell() && op.cell2 < m {
            1int
        } else {
            0int
        }),
    decreases m,
{
    if m > 0 {
        lemma_inflow_prefix(sensi, op, columns, v, (m - 1) as nat);
        assert(all_nodes(m).drop_last() =~= all_nodes((m - 1) as nat));
        assert(all_nodes(m).last() == (m - 1) as i32);
        assert(occurrences(sensi[m - 1]@, v) == op.reads(m - 1, columns));
    }
}

/// No cell has more edges into it than a counter can hold.
pub proof fn lemma_in_degree_bounded(sensi: Seq<Vec<i32>>, opers: Seq<Ops>, columns: int, v: i32)
    requires
        counted(sensi, opers, columns),
        sensi.len() == opers.len(),
        opers.len() <= i32::MAX,
        0 <= v < opers.len(),
    ensures
        in_degree(sensi, v) <= i32::MAX,
{
    assert forall|x: int| 0 <= x < sensi.len() implies occurrences(#[trigger] sensi[x]@, v)
        == opers[v as int].reads(x, columns) by {
        assert(occurrences(sensi[x]@, v as int as i32) == opers[v as int].reads(x, columns));
    }
    lemma_inflow_prefix(sensi, opers[v as int], columns, v, sensi.len());
}

/// The greatest number of `rank`, or more.
pub open spec fn peak(rank: Seq<nat>) -> nat
    decreases rank.len(),
{
    if rank.len() == 0 {
        0
    } else if rank.last() > peak(rank.drop_last()) {
        rank.last()
    } else {
        peak(rank.drop_last())
    }
}

/// No number of `rank` lies above its peak.
proof fn lemma_peak(rank: Seq<nat>, i: int)
    requires
        0 <= i < rank.len(),
    ensures
        rank[i] <= peak(rank),
    decreases rank.len(),
{
    if i < rank.len() - 1 {
        lemma_peak(rank.drop_last(), i);
    }
}

/// The place of `v` in `order`.
pub open spec fn place(order: Seq<i32>, v: i32) -> int {
    choose|q: int| 0 <= q < order.len() && order[q] == v
}

/// A graph that was free of cycles and got new edges into `cell` only has no
/// cycle that avoids `cell`.
pub proof fn lemma_new_edges_into_cell(before: Seq<Vec<i32>>, after: Seq<Vec<i32>>, cell: i32)
    requires
        acyclic(before),
        well_formed(before),
        after.len() == before.len(),
        forall|u: int, v: i32|
            0 <= u < after.len() && v != cell && #[trigger] after[u]@.contains(v)
                ==> before[u]@.contains(v),
    ensures
        acyclic_besides(after, cell),
{
    let rank = choose|rank: Seq<nat>| ranked(before, rank, NO_CELL);
    assert forall|u: int, i: int|
        0 <= u < after.len() && 0 <= i < after[u]@.len() && #[trigger] after[u]@[i]
            != cell implies rank[u] < rank[after[u]@[i] as int] by {
        let v = after[u]@[i];
        assert(after[u]@.contains(v));
        let j = choose|j: int| 0 <= j < before[u]@.len() && before[u]@[j] == v;
        assert(0 <= before[u]@[j] < before.len());
        assert(before[u]@[j] != NO_CELL);
    }
    assert(ranked(after, rank, cell));
}

/// A graph that was free of cycles, got new edges into `cell` only and has a
/// recompute order for `cell` is free of cycles.
pub proof fn lemma_still_acyclic(
    before: Seq<Vec<i32>>,
    after: Seq<Vec<i32>>,
    cell: i32,
    order: Seq<i32>,
)
    requires
        acyclic(before),
        well_formed(before),
        well_formed(after),
        after.len() == before.len(),
        after.len() <= i32::MAX,
        0 <= cell < after.len(),
        forall|u: int, v: i32|
            0 <= u < after.len() && v != cell && #[trigger] after[u]@.contains(v)
                ==> before[u]@.contains(v),
        is_recompute_order(after, cell, order),
    ensures
        acyclic(after),
{
    let rank = choose|rank: Seq<nat>| ranked(before, rank, NO_CELL);
    let base = peak(rank) + 1;
    let fresh = Seq::new(
        after.len(),
        |v: int|
            if order.contains(v as i32) {
                (base + place(order, v as i32)) as nat
            } else {
                rank[v]
            },
    );
    assert forall|u: int, i: int|
        0 <= u < after.len() && 0 <= i < after[u]@.len() && #[trigger] after[u]@[i]
            != NO_CELL implies fresh[u] < fresh[after[u]@[i] as int] by {
        let v = after[u]@[i];
        assert(0 <= v < after.len());
        lemma_peak(rank, u);
        lemma_peak(rank, v as int);
        if order.contains(u as i32) {
            let p = place(order, u as i32);
            assert(order[p] == u as i32);
            assert(stands_after(order, after[order[p] as int]@[i], p));
            let q = choose|q: int| p < q < order.len() && #[trigger] order[q] == v;
            assert(order.contains(v));
            assert(place(order, v) == q);
        } else if order.contains(v) {
        } else {
            assert(order[0] == cell);
            assert(v != cell);
            assert(after[u]@.contains(v));
            let j = choose|j: int| 0 <= j < before[u]@.len() && before[u]@[j] == v;
            assert(before[u]@[j] != NO_CELL);
        }
    }
    assert(ranked(after, fresh, NO_CELL));
}

/// In a recompute order along the readers' lists, no cell comes before a
/// cell of the order that its formula reads.
pub proof fn lemma_order_reads_earlier(
    sensi: Seq<Vec<i32>>,
    opers: Seq<Ops>,
    columns: int,
    cell: i32,
    order: Seq<i32>,
)
    requires
        columns >= 1,
        counted(sensi, opers, columns),
        well_formed(sensi),
        sensi.len() == opers.len(),
        opers.len() <= i32::MAX,
        0 <= cell < opers.len(),
        forall|y: int|
            0 <= y < opers.len() ==> (#[trigger] opers[y]).valid(opers.len() as int, columns),
        is_recompute_order(sensi, cell, order),
    ensures
        reads_earlier(opers, columns, order),
{
    assert forall|p: int| 0 <= p < order.len() implies 0 <= #[trigger] order[p] < opers.len()
        && opers[order[p] as int].valid(opers.len() as int, columns) by {
        assert(order.contains(order[p]));
        assert(reaches(sensi, cell, order[p]));
        let w = choose|w: Seq<i32>| #[trigger]
            is_path(sensi, w) && w[0] == cell && w.last() == order[p];
        assert(0 <= w[w.len() - 1] < sensi.len());
    }
    assert forall|p: int, q: int|
        0 <= p < order.len() && 0 <= q < order.len() && #[trigger] opers[order[p] as int].reads(
            order[q] as int,
            columns,
        ) > 0 implies q < p by {
        lemma_listed_iff_read(sensi, opers, columns, order[q] as int, order[p] as int);
        let readers = sensi[order[q] as int]@;
        let i = choose|i: int| 0 <= i < readers.len() && readers[i] == order[p];
        assert(stands_after(order, sensi[order[q] as int]@[i], q));
        let r = choose|r: int| q < r < order.len() && #[trigger] order[r] == order[p];
        assert(r == p);
    }
}

/// The seconds that the formulas of the cells below `upto` that depend on
/// `target` take on the stores of `after`.
pub open spec fn total_due(
    opers: Seq<Ops>,
    columns: int,
    after: Sheet,
    target: i32,
    upto: nat,
) -> int
    decreases upto,
{
    if upto == 0 {
        0
    } else {
        total_due(opers, columns, after, target, (upto - 1) as nat) + if affects(
            opers,
            columns,
            target,
            (upto - 1) as i32,
        ) {
            due(opers, after, upto - 1)
        } else {
            0
        }
    }
}

/// Taking one cell out of a list takes its seconds out of the sum.
proof fn lemma_due_along_remove(opers: Seq<Ops>, after: Sheet, cells: Seq<i32>, k: int)
    requires
        0 <= k < cells.len(),
    ensures
        due_along(opers, after, cells) == due_along(opers, after, cells.remove(k)) + due(
            opers,
            after,
            cells[k] as int,
        ),
    decreases cells.len(),
{
    if k == cells.len() - 1 {
        assert(cells.remove(k) =~= cells.drop_last());
    } else {
        assert(cells.remove(k).drop_last() =~= cells.drop_last().remove(k));
        lemma_due_along_remove(opers, after, cells.drop_last(), k);
    }
}

/// Adding up over a list that holds, each once, the cells below `upto` that
/// depend on `target` is adding up over those cells.
pub proof fn lemma_due_in_any_order(
    opers: Seq<Ops>,
    columns: int,
    after: Sheet,
    target: i32,
    cells: Seq<i32>,
    upto: nat,
)
    requires
        upto <= i32::MAX,
        cells.no_duplicates(),
        forall|k: int| 0 <= k < cells.len() ==> 0 <= #[trigger] cells[k] < upto,
        forall|c: i32|
            0 <= c < upto ==> (#[trigger] cells.contains(c) <==> affects(opers, columns, target, c)),
    ensures
        due_along(opers, after, cells) == total_due(opers, columns, after, target, upto),
    decreases upto,
{
    if upto == 0 {
        if cells.len() > 0 {
            assert(0 <= cells[0] < upto);
        }
    } else {
        let top = (upto - 1) as i32;
        if cells.contains(top) {
            let k = choose|k: int| 0 <= k < cells.len() && cells[k] == top;
            let fewer = cells.remove(k);
            assert forall|j: int| 0 <= j < fewer.len() implies 0 <= #[trigger] fewer[j] < upto
                - 1 by {
                let j0 = if j < k {
                    j
                } else {
                    j + 1
                };
                assert(fewer[j] == cells[j0]);
            }
            assert(fewer.no_duplicates());
            assert forall|c: i32| 0 <= c < upto - 1 implies (#[trigger] fewer.contains(c) <==> affects(
                opers,
                columns,
                target,
                c,
            )) by {
                if fewer.contains(c) {
                    let j = choose|j: int| 0 <= j < fewer.len() && fewer[j] == c;
                    let j0 = if j < k {
                        j
                    } else {
                        j + 1
                    };
                    assert(cells[j0] == c);
                    assert(cells.contains(c));
                }
                if cells.contains(c) {
                    let j0 = choose|j0: int| 0 <= j0 < cells.len() && cells[j0] == c;
                    let j = if j0 < k {
                        j0
                    } else {
                        j0 - 1
                    };
                    assert(fewer[j] == c);
                }
            }
            lemma_due_in_any_order(opers, columns, after, target, fewer, (upto - 1) as nat);
            lemma_due_along_remove(opers, after, cells, k);
        } else {
            assert forall|j: int| 0 <= j < cells.len() implies 0 <= #[trigger] cells[j] < upto
                - 1 by {
                assert(cells.contains(cells[j]));
            }
            lemma_due_in_any_order(opers, columns, after, target, cells, (upto - 1) as nat);
        }
    }
}


/// A formula that reads its own cell makes the cell depend on itself: an
/// edit that installs such a formula is refused.
pub proof fn lemma_self_reference_is_cycle(opers: Seq<Ops>, columns: int, target: i32, op: Ops)
    requires
        0 <= target < opers.len(),
        op.reads(target as int, columns) > 0,
    ensures
        feeds_itself(opers.update(target as int, op), columns, target),
{
    let proposed = opers.update(target as int, op);
    let p = seq![target, target];
    assert(is_read_walk(proposed, columns, p)) by {
        assert forall|k: int| 0 <= k < p.len() - 1 implies proposed[p[k + 1] as int].reads(
            #[trigger] p[k] as int,
            columns,
        ) > 0 by {
            assert(p[k] == target && p[k + 1] == target);
        }
    }
    assert(p.len() >= 2 && p[0] == target && p.last() == target);
}

/// In a grid whose stores fit together no cell depends on itself.
pub proof fn lemma_coherent_has_no_cycle(
    sensi: Seq<Vec<i32>>,
    opers: Seq<Ops>,
    columns: int,
    cell: i32,
)
    requires
        coherent(sensi, opers, columns),
    ensures
        !feeds_itself(opers, columns, cell),
{
    if feeds_itself(opers, columns, cell) {
        let p = choose|p: Seq<i32>| #[trigger]
            is_read_walk(opers, columns, p) && p.len() >= 2 && p[0] == cell && p.last() == cell;
        lemma_walks_agree(sensi, opers, columns, p);
        let rank = choose|rank: Seq<nat>| ranked(sensi, rank, NO_CELL);
        assert forall|j: int| 1 <= j < p.len() implies #[trigger] p[j] != NO_CELL by {
            assert(0 <= p[j] < sensi.len());
        }
        crate::graph::lemma_rank_rises(sensi, rank, NO_CELL, p, p.len() - 1);
    }
}


/// Readers' lists that hold what lists that fit the formulas hold fit the
/// formulas as well.
pub proof fn lemma_same_lists_coherent(
    before: Seq<Vec<i32>>,
    after: Seq<Vec<i32>>,
    opers: Seq<Ops>,
    columns: int,
)
    requires
        coherent(before, opers, columns),
        after.len() == before.len(),
        forall|x: int| 0 <= x < before.len() ==> #[trigger] after[x]@ == before[x]@,
    ensures
        coherent(after, opers, columns),
{
    let rank = choose|rank: Seq<nat>| ranked(before, rank, NO_CELL);
    assert forall|u: int, i: int|
        0 <= u < after.len() && 0 <= i < after[u]@.len() implies 0 <= #[trigger] after[u]@[i]
        < after.len() by {
        assert(after[u]@[i] == before[u]@[i]);
    }
    assert forall|u: int, i: int|
        0 <= u < after.len() && 0 <= i < after[u]@.len() && #[trigger] after[u]@[i]
            != NO_CELL implies rank[u] < rank[after[u]@[i] as int] by {
        assert(after[u]@[i] == before[u]@[i]);
    }
    assert(ranked(after, rank, NO_CELL));
    assert forall|x: int, y: int| 0 <= x < opers.len() && 0 <= y < opers.len() implies occurrences(
        after[x]@,
        y as i32,
    ) == #[trigger] opers[y].reads(x, columns) by {
        assert(after[x]@ == before[x]@);
        assert(occurrences(before[x]@, y as i32) == opers[y].reads(x, columns));
    }
}


} // verus!
