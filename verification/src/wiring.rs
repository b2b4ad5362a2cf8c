//! Upkeep of the readers' lists.
//!
//! The list of a cell holds, once per read, every cell whose formula reads
//! it.  Entries are pushed at the end, and the entry taken away is always the
//! last one that names the reader.

use crate::address::{column_of, coordinate_of, lemma_index_splits, linear_index, row_of};
use crate::graph::{
    lemma_occurrences_contains,
    lemma_occurrences_push,
    lemma_occurrences_remove,
    occurrences,
    well_formed,
};
use crate::operation::{in_rect, Ops};
use crate::operations::{lemma_scan_step, scanned};
use vstd::prelude::*;

verus! {

/// Whether `op` is an aggregate whose rectangle holds the cell `x`.
pub open spec fn range_reads(op: Ops, x: int, columns: int) -> bool {
    op.code.is_range() && in_rect(x, op.cell1 as int, op.cell2 as int, columns)
}

/// The position of the last `v` in `s`, or `-1` if there is none.
pub open spec fn last_position(s: Seq<i32>, v: i32) -> int
    decreases s.len(),
{
    if s.len() == 0 {
        -1
    } else if s.last() == v {
        s.len() - 1
    } else {
        last_position(s.drop_last(), v)
    }
}

/// The last `v` stands where a `v` stands that no `v` follows.
proof fn lemma_last_position(s: Seq<i32>, v: i32, at: int)
    requires
        0 <= at < s.len(),
        s[at] == v,
        forall|j: int| at < j < s.len() ==> s[j] != v,
    ensures
        last_position(s, v) == at,
    decreases s.len(),
{
    if s.last() != v {
        lemma_last_position(s.drop_last(), v, at);
    }
}

/// Appends `target` to the readers of `source`.
pub fn link(sensi: &mut [Vec<i32>], source: usize, target: i32)
    requires
        source < old(sensi)@.len(),
    ensures
        final(sensi)@.len() == old(sensi)@.len(),
        final(sensi)@[source as int]@ == old(sensi)@[source as int]@.push(target),
        forall|x: int|
            0 <= x < old(sensi)@.len() && x != source ==> #[trigger] final(sensi)@[x] == old(sensi)@[x],
        forall|v: i32| #[trigger]
            occurrences(final(sensi)@[source as int]@, v) == occurrences(
                old(sensi)@[source as int]@,
                v,
            ) + only_for(target, v, 1),
        well_formed(old(sensi)@) && 0 <= target < old(sensi)@.len() ==> well_formed(
            final(sensi)@,
        ),
{
    let ghost before = sensi@;
    sensi[source].push(target);
    proof {
        assert forall|v: i32| #[trigger]
            occurrences(sensi@[source as int]@, v) == occurrences(before[source as int]@, v)
                + only_for(target, v, 1) by {
            lemma_occurrences_push(before[source as int]@, target, v);
        }
        if well_formed(before) && 0 <= target < before.len() {
            assert forall|u: int, k: int|
                0 <= u < sensi@.len() && 0 <= k < sensi@[u]@.len() implies 0
                <= #[trigger] sensi@[u]@[k] < sensi@.len() by {
                if u == source {
                    if k < before[u]@.len() {
                        assert(sensi@[u]@[k] == before[u]@[k]);
                    }
                } else {
                    assert(sensi@[u] == before[u]);
                }
            }
        }
    }
}

/// Takes the last `target` out of the readers of `source`, and says where it
/// stood.
pub fn unlink(sensi: &mut [Vec<i32>], source: usize, target: i32) -> (position: usize)
    requires
        source < old(sensi)@.len(),
        old(sensi)@[source as int]@.contains(target),
    ensures
        position == last_position(old(sensi)@[source as int]@, target),
        final(sensi)@.len() == old(sensi)@.len(),
        final(sensi)@[source as int]@ == old(sensi)@[source as int]@.remove(
            last_position(old(sensi)@[source as int]@, target),
        ),
        0 <= last_position(old(sensi)@[source as int]@, target) < old(sensi)@[source as int]@.len(),
        old(sensi)@[source as int]@[last_position(old(sensi)@[source as int]@, target)] == target,
        forall|x: int|
            0 <= x < old(sensi)@.len() && x != source ==> #[trigger] final(sensi)@[x] == old(sensi)@[x],
        forall|v: i32| #[trigger]
            occurrences(final(sensi)@[source as int]@, v) == occurrences(
                old(sensi)@[source as int]@,
                v,
            ) + only_for(target, v, -1),
        well_formed(old(sensi)@) ==> well_formed(final(sensi)@),
{
    let ghost before = sensi@;
    let ghost list = sensi@[source as int]@;
    let mut k: usize = sensi[source].len();
    while k > 0 && sensi[source][k - 1] != target
        invariant
            source < sensi@.len(),
            sensi@ == old(sensi)@,
            list == sensi@[source as int]@,
            k <= list.len(),
            forall|j: int| k <= j < list.len() ==> list[j] != target,
        decreases k,
    {
        k = k - 1;
    }
    proof {
        if k == 0 {
            let j = choose|j: int| 0 <= j < list.len() && list[j] == target;
            assert(list[j] != target);
        }
        lemma_last_position(list, target, k - 1);
    }
    sensi[source].remove(k - 1);
    proof {
        assert forall|v: i32| #[trigger]
            occurrences(sensi@[source as int]@, v) == occurrences(before[source as int]@, v)
                + only_for(target, v, -1) by {
            lemma_occurrences_remove(list, k - 1, v);
        }
        if well_formed(before) {
            assert forall|u: int, j: int|
                0 <= u < sensi@.len() && 0 <= j < sensi@[u]@.len() implies 0
                <= #[trigger] sensi@[u]@[j] < sensi@.len() by {
                if u == source {
                    if j < k - 1 {
                        assert(sensi@[u]@[j] == before[u]@[j]);
                    } else {
                        assert(sensi@[u]@[j] == before[u]@[j + 1]);
                    }
                } else {
                    assert(sensi@[u] == before[u]);
                }
            }
        }
    }
    k - 1
}

/// One change of the readers' lists on behalf of one reader.
#[derive(Clone, Copy, Debug, PartialEq, Eq)]
pub enum Change {
    /// The reader was taken out of the list of `cell`, where it stood at
    /// `position`.
    Removed { cell: usize, position: usize },
    /// The reader was appended to the list of `cell`.
    Added { cell: usize },
}

impl Change {
    /// The cell whose list was changed.
    pub open spec fn cell(self) -> usize {
        match self {
            Change::Removed { cell, position } => cell,
            Change::Added { cell } => cell,
        }
    }
}

/// The readers' lists as sequences.
pub open spec fn lists(sensi: Seq<Vec<i32>>) -> Seq<Seq<i32>> {
    Seq::new(sensi.len(), |x: int| sensi[x]@)
}

/// Whether the change `c` for the reader `target` can be made to the lists
/// `s`.
pub open spec fn can_change(s: Seq<Seq<i32>>, c: Change, target: i32) -> bool {
    match c {
        Change::Removed { cell, position } => cell < s.len() && position < s[cell as int].len()
            && s[cell as int][position as int] == target,
        Change::Added { cell } => cell < s.len(),
    }
}

/// The lists `s` after the change `c` for the reader `target`.
pub open spec fn after_change(s: Seq<Seq<i32>>, c: Change, target: i32) -> Seq<Seq<i32>> {
    match c {
        Change::Removed { cell, position } => s.update(
            cell as int,
            s[cell as int].remove(position as int),
        ),
        Change::Added { cell } => s.update(cell as int, s[cell as int].push(target)),
    }
}

/// The lists `s` after the changes of `log`, made one after the other.
pub open spec fn after_changes(s: Seq<Seq<i32>>, log: Seq<Change>, target: i32) -> Seq<Seq<i32>>
    decreases log.len(),
{
    if log.len() == 0 {
        s
    } else {
        after_change(after_changes(s, log.drop_last(), target), log.last(), target)
    }
}

/// Whether the changes of `log` can be made to the lists `s` one after the
/// other.
pub open spec fn can_change_all(s: Seq<Seq<i32>>, log: Seq<Change>, target: i32) -> bool
    decreases log.len(),
{
    log.len() == 0 || (can_change_all(s, log.drop_last(), target) && can_change(
        after_changes(s, log.drop_last(), target),
        log.last(),
        target,
    ))
}

/// `log` holds the changes that made the lists `base` into what `sensi`
/// holds.
pub open spec fn tracks(
    base: Seq<Seq<i32>>,
    log: Seq<Change>,
    sensi: Seq<Vec<i32>>,
    target: i32,
) -> bool {
    can_change_all(base, log, target) && lists(sensi) == after_changes(base, log, target)
}

/// [`link`], written down in `log`.
fn note_link(
    sensi: &mut [Vec<i32>],
    source: usize,
    target: i32,
    log: &mut Vec<Change>,
    Ghost(base): Ghost<Seq<Seq<i32>>>,
)
    requires
        source < old(sensi)@.len(),
        tracks(base, old(log)@, old(sensi)@, target),
    ensures
        final(sensi)@.len() == old(sensi)@.len(),
        final(sensi)@[source as int]@ == old(sensi)@[source as int]@.push(target),
        forall|x: int|
            0 <= x < old(sensi)@.len() && x != source ==> #[trigger] final(sensi)@[x] == old(sensi)@[x],
        forall|v: i32| #[trigger]
            occurrences(final(sensi)@[source as int]@, v) == occurrences(
                old(sensi)@[source as int]@,
                v,
            ) + only_for(target, v, 1),
        well_formed(old(sensi)@) && 0 <= target < old(sensi)@.len() ==> well_formed(
            final(sensi)@,
        ),
        tracks(base, final(log)@, final(sensi)@, target),
{
    let ghost before = sensi@;
    let ghost noted = log@;
    link(sensi, source, target);
    log.push(Change::Added { cell: source });
    proof {
        assert(log@.drop_last() =~= noted);
        assert(lists(sensi@) =~~= after_change(
            lists(before),
            Change::Added { cell: source },
            target,
        ));
    }
}

/// [`unlink`], written down in `log`.
fn note_unlink(
    sensi: &mut [Vec<i32>],
    source: usize,
    target: i32,
    log: &mut Vec<Change>,
    Ghost(base): Ghost<Seq<Seq<i32>>>,
)
    requires
        source < old(sensi)@.len(),
        old(sensi)@[source as int]@.contains(target),
        tracks(base, old(log)@, old(sensi)@, target),
    ensures
        final(sensi)@.len() == old(sensi)@.len(),
        final(sensi)@[source as int]@ == old(sensi)@[source as int]@.remove(
            last_position(old(sensi)@[source as int]@, target),
        ),
        forall|x: int|
            0 <= x < old(sensi)@.len() && x != source ==> #[trigger] final(sensi)@[x] == old(sensi)@[x],
        forall|v: i32| #[trigger]
            occurrences(final(sensi)@[source as int]@, v) == occurrences(
                old(sensi)@[source as int]@,
                v,
            ) + only_for(target, v, -1),
        well_formed(old(sensi)@) ==> well_formed(final(sensi)@),
        tracks(base, final(log)@, final(sensi)@, target),
{
    let ghost before = sensi@;
    let ghost noted = log@;
    let position: usize = unlink(sensi, source, target);
    log.push(Change::Removed { cell: source, position });
    proof {
        assert(log@.drop_last() =~= noted);
        assert(lists(sensi@) =~~= after_change(
            lists(before),
            Change::Removed { cell: source, position },
            target,
        ));
    }
}

/// Takes back the changes of `log`, the last one first: what was appended
/// is taken off the end, and what was taken out is put back where it stood.
pub(crate) fn undo(
    sensi: &mut [Vec<i32>],
    log: &Vec<Change>,
    target: i32,
    Ghost(base): Ghost<Seq<Seq<i32>>>,
)
    requires
        tracks(base, log@, old(sensi)@, target),
    ensures
        final(sensi)@.len() == old(sensi)@.len(),
        lists(final(sensi)@) == base,
{
    let mut k: usize = log.len();
    proof {
        assert(log@.take(k as int) =~= log@);
    }
    while k > 0
        invariant
            k <= log@.len(),
            sensi@.len() == old(sensi)@.len(),
            tracks(base, log@.take(k as int), sensi@, target),
        decreases k,
    {
        let ghost done = log@.take(k as int);
        let ghost earlier = after_changes(base, log@.take(k - 1), target);
        let ghost before = sensi@;
        proof {
            assert(done.drop_last() =~= log@.take(k - 1));
            assert(done.last() == log@[k - 1]);
            assert(lists(before) == after_change(earlier, log@[k - 1], target));
            assert(lists(before).len() == before.len());
        }
        k = k - 1;
        match log[k] {
            Change::Removed { cell, position } => {
                assert(lists(before)[cell as int] == before[cell as int]@);
                sensi[cell].insert(position, target);
                proof {
                    assert(sensi@[cell as int]@ =~= earlier[cell as int]);
                }
            },
            Change::Added { cell } => {
                assert(lists(before)[cell as int] == before[cell as int]@);
                let _ = sensi[cell].pop();
                proof {
                    assert(sensi@[cell as int]@ =~= earlier[cell as int]);
                }
            },
        }
        proof {
            assert forall|x: int| 0 <= x < sensi@.len() implies #[trigger] lists(sensi@)[x]
                == earlier[x] by {
                if x != log@[k as int].cell() {
                    assert(lists(before)[x] == before[x]@);
                }
            }
            assert(lists(sensi@) =~= earlier);
        }
    }
    proof {
        assert(log@.take(0) =~= Seq::<Change>::empty());
    }
}

/// By how much the walk of the rectangle of `op` changes the number of times
/// that `target` is listed as a reader of `x`: by `sign` where the rectangle
/// holds `x` and that of `other` does not.
pub open spec fn rect_change(op: Ops, other: Ops, x: int, columns: int, sign: int) -> int {
    if range_reads(op, x, columns) && !range_reads(other, x, columns) {
        sign
    } else {
        0
    }
}

/// [`rect_change`], as far as the walk has come when it stands at column
/// `col`, row `row`.
pub open spec fn scan_change(
    op: Ops,
    other: Ops,
    x: int,
    columns: int,
    sign: int,
    col: int,
    row: int,
) -> int {
    if scanned(x, op.cell1 as int, op.cell2 as int, columns, col, row) && !range_reads(
        other,
        x,
        columns,
    ) {
        sign
    } else {
        0
    }
}

/// The list `s` after `target` was appended to it (`change` is 1), after the
/// last `target` was taken out of it (`change` is -1), or as it is.
pub open spec fn edited(s: Seq<i32>, target: i32, change: int) -> Seq<i32> {
    if change == 1 {
        s.push(target)
    } else if change == -1 {
        s.remove(last_position(s, target))
    } else {
        s
    }
}

/// The list `s` after its last `v` was taken out `n` times.
pub open spec fn without_last(s: Seq<i32>, v: i32, n: nat) -> Seq<i32>
    decreases n,
{
    if n == 0 {
        s
    } else {
        without_last(s, v, (n - 1) as nat).remove(
            last_position(without_last(s, v, (n - 1) as nat), v),
        )
    }
}

/// The list `s` after `v` was appended `n` times.
pub open spec fn with_more(s: Seq<i32>, v: i32, n: nat) -> Seq<i32>
    decreases n,
{
    if n == 0 {
        s
    } else {
        with_more(s, v, (n - 1) as nat).push(v)
    }
}

/// How many entries for its reader a change of formula from `from` to `to`
/// takes out of the list of `x`: one for each operand of `from` that names
/// `x`, and one if the rectangle of `from` holds `x` and that of `to` does
/// not.
pub open spec fn leaving(from: Ops, to: Ops, x: int, columns: int) -> nat {
    (slot_reads(from, x) + if range_reads(from, x, columns) && !range_reads(to, x, columns) {
        1int
    } else {
        0int
    }) as nat
}

/// The list `s` of the readers of `x` after the formula of `target` changed
/// from `from` to `to`: the entries that leave are the last ones, and those
/// that join stand at the end.
pub open spec fn rewired(
    s: Seq<i32>,
    target: i32,
    from: Ops,
    to: Ops,
    x: int,
    columns: int,
) -> Seq<i32> {
    with_more(
        without_last(s, target, leaving(from, to, x, columns)),
        target,
        leaving(to, from, x, columns),
    )
}

/// `change` for the reader `target`, nothing for any other.
pub open spec fn only_for(target: i32, v: i32, change: int) -> int {
    if v == target {
        change
    } else {
        0
    }
}

/// Walks the rectangle of the aggregate `op` and, at every cell of it that
/// the rectangle of `other` does not hold, lists `target` as a reader once
/// more (`add`) or once less.
fn edit_rect(
    sensi: &mut [Vec<i32>],
    target: i32,
    op: Ops,
    other: Ops,
    columns: i32,
    add: bool,
    log: &mut Vec<Change>,
    Ghost(base): Ghost<Seq<Seq<i32>>>,
)
    requires
        tracks(base, old(log)@, old(sensi)@, target),
        columns >= 1,
        0 <= target < old(sensi)@.len(),
        well_formed(old(sensi)@),
        op.code.is_range(),
        op.valid(old(sensi)@.len() as int, columns as int),
        other.valid(old(sensi)@.len() as int, columns as int),
        !add ==> forall|x: int|
            #![trigger in_rect(x, op.cell1 as int, op.cell2 as int, columns as int)]
            range_reads(op, x, columns as int) && !range_reads(other, x, columns as int)
                ==> old(sensi)@[x]@.contains(target),
    ensures
        tracks(base, final(log)@, final(sensi)@, target),
        final(sensi)@.len() == old(sensi)@.len(),
        well_formed(final(sensi)@),
        forall|x: int, v: i32|
            0 <= x < old(sensi)@.len() ==> #[trigger] occurrences(final(sensi)@[x]@, v)
                == occurrences(old(sensi)@[x]@, v) + only_for(
                target,
                v,
                rect_change(op, other, x, columns as int, if add { 1int } else { -1int }),
            ),
        forall|x: int|
            0 <= x < old(sensi)@.len() ==> (#[trigger] final(sensi)@[x])@ == edited(
                old(sensi)@[x]@,
                target,
                rect_change(op, other, x, columns as int, if add { 1int } else { -1int }),
            ),
{
    let ghost start = sensi@;
    let ghost n = sensi@.len() as int;
    let ghost cols = columns as int;
    let ghost g1 = op.cell1 as int;
    let ghost g2 = op.cell2 as int;
    let ghost sign: int = if add {
        1
    } else {
        -1
    };
    let (x1, y1) = coordinate_of(op.cell1, columns);
    let (x2, y2) = coordinate_of(op.cell2, columns);
    let skips: bool = other.code.reads_range();
    let (sx1, sy1) = if skips {
        coordinate_of(other.cell1, columns)
    } else {
        (0, 0)
    };
    let (sx2, sy2) = if skips {
        coordinate_of(other.cell2, columns)
    } else {
        (0, 0)
    };
    proof {
        lemma_index_splits(g1, cols);
        lemma_index_splits(g2, cols);
    }
    let mut i: i64 = x1 as i64;
    while i <= x2 as i64
        invariant
            cols == columns,
            cols >= 1,
            n == start.len(),
            sensi@.len() == n,
            0 <= target < n,
            well_formed(sensi@),
            tracks(base, log@, sensi@, target),
            g1 == op.cell1,
            g2 == op.cell2,
            1 <= g1 < n,
            1 <= g2 < n,
            x1 == column_of(g1, cols),
            x2 == column_of(g2, cols),
            y1 == row_of(g1, cols),
            y2 == row_of(g2, cols),
            x1 <= x2,
            1 <= y1 <= y2,
            x1 <= i <= x2 + 1,
            op.code.is_range(),
            skips == other.code.is_range(),
            skips ==> sx1 == column_of(other.cell1 as int, cols) && sx2 == column_of(
                other.cell2 as int,
                cols,
            ) && sy1 == row_of(other.cell1 as int, cols) && sy2 == row_of(
                other.cell2 as int,
                cols,
            ),
            sign == if add { 1int } else { -1int },
            !add ==> forall|x: int|
                #![trigger in_rect(x, g1, g2, cols)]
                range_reads(op, x, cols) && !range_reads(other, x, cols) ==> start[x]@.contains(
                    target,
                ),
            forall|x: int, v: i32|
                0 <= x < n ==> #[trigger] occurrences(sensi@[x]@, v) == occurrences(start[x]@, v)
                    + only_for(target, v, scan_change(op, other, x, cols, sign, i as int, y1 as int)),
            forall|x: int|
                0 <= x < n ==> (#[trigger] sensi@[x])@ == edited(
                    start[x]@,
                    target,
                    scan_change(op, other, x, cols, sign, i as int, y1 as int),
                ),
        decreases x2 - i + 1,
    {
        let mut j: i64 = y1 as i64;
        while j <= y2 as i64
            invariant
                cols == columns,
                cols >= 1,
                n == start.len(),
                sensi@.len() == n,
                0 <= target < n,
                well_formed(sensi@),
                tracks(base, log@, sensi@, target),
                g1 == op.cell1,
                g2 == op.cell2,
                1 <= g1 < n,
                1 <= g2 < n,
                x1 == column_of(g1, cols),
                x2 == column_of(g2, cols),
                y1 == row_of(g1, cols),
                y2 == row_of(g2, cols),
                x1 <= i <= x2,
                1 <= y1 <= j <= y2 + 1,
                op.code.is_range(),
                skips == other.code.is_range(),
                skips ==> sx1 == column_of(other.cell1 as int, cols) && sx2 == column_of(
                    other.cell2 as int,
                    cols,
                ) && sy1 == row_of(other.cell1 as int, cols) && sy2 == row_of(
                    other.cell2 as int,
                    cols,
                ),
                sign == if add { 1int } else { -1int },
                !add ==> forall|x: int|
                    #![trigger in_rect(x, g1, g2, cols)]
                    range_reads(op, x, cols) && !range_reads(other, x, cols)
                        ==> start[x]@.contains(target),
                forall|x: int, v: i32|
                    0 <= x < n ==> #[trigger] occurrences(sensi@[x]@, v) == occurrences(
                        start[x]@,
                        v,
                    ) + only_for(target, v, scan_change(op, other, x, cols, sign, i as int, j as int)),
                forall|x: int|
                    0 <= x < n ==> (#[trigger] sensi@[x])@ == edited(
                        start[x]@,
                        target,
                        scan_change(op, other, x, cols, sign, i as int, j as int),
                    ),
            decreases y2 - j + 1,
        {
            proof {
                lemma_scan_step(g1, g2, cols, i as int, j as int);
                assert((j - 1) * cols >= 0) by (nonlinear_arith)
                    requires
                        j >= 1,
                        cols >= 1,
                ;
            }
            let ghost here = linear_index(i as int, j as int, cols);
            let at: usize = (i + (j - 1) * (columns as i64)) as usize;
            assert(at == here);
            let kept: bool = skips && sx1 as i64 <= i && i <= sx2 as i64 && sy1 as i64 <= j && j
                <= sy2 as i64;
            proof {
                crate::address::lemma_coordinate_round_trip(i as int, j as int, cols);
                assert(kept == range_reads(other, here, cols));
            }
            let ghost before = sensi@;
            if !kept {
                proof {
                    assert(occurrences(before[here]@, target) == occurrences(start[here]@, target));
                    lemma_occurrences_contains(start[here]@, target);
                    lemma_occurrences_contains(before[here]@, target);
                }
                if add {
                    note_link(sensi, at, target, log, Ghost(base));
                } else {
                    note_unlink(sensi, at, target, log, Ghost(base));
                }
            }
            proof {
                assert forall|x: int, v: i32| 0 <= x < n implies #[trigger] occurrences(
                    sensi@[x]@,
                    v,
                ) == occurrences(start[x]@, v) + only_for(
                    target,
                    v,
                    scan_change(op, other, x, cols, sign, i as int, j + 1),
                ) by {
                    assert(occurrences(before[x]@, v) == occurrences(start[x]@, v) + only_for(
                        target,
                        v,
                        scan_change(op, other, x, cols, sign, i as int, j as int),
                    ));
                    if x == here && !kept {
                        assert(occurrences(sensi@[at as int]@, v) == occurrences(
                            before[at as int]@,
                            v,
                        ) + only_for(target, v, sign));
                    } else {
                        assert(sensi@[x] == before[x]);
                    }
                }
                assert forall|x: int| 0 <= x < n implies (#[trigger] sensi@[x])@ == edited(
                    start[x]@,
                    target,
                    scan_change(op, other, x, cols, sign, i as int, j + 1),
                ) by {
                    assert(before[x]@ == edited(
                        start[x]@,
                        target,
                        scan_change(op, other, x, cols, sign, i as int, j as int),
                    ));
                    if !(x == here && !kept) {
                        assert(sensi@[x] == before[x]);
                    }
                }
            }
            j = j + 1;
        }
        proof {
            assert forall|x: int|
                scan_change(op, other, x, cols, sign, i + 1, y1 as int) == #[trigger] scan_change(
                    op,
                    other,
                    x,
                    cols,
                    sign,
                    i as int,
                    j as int,
                ) by {}
        }
        i = i + 1;
    }
    proof {
        assert forall|x: int|
            rect_change(op, other, x, cols, sign) == #[trigger] scan_change(
                op,
                other,
                x,
                cols,
                sign,
                i as int,
                y1 as int,
            ) by {}
    }
}

/// How many times the operands of `op` name the cell `x` as a cell to read.
pub open spec fn slot_reads(op: Ops, x: int) -> int {
    (if op.code.first_is_cell() && op.cell1 == x {
        1int
    } else {
        0int
    }) + (if op.code.second_is_cell() && op.cell2 == x {
        1int
    } else {
        0int
    })
}

/// Turns the reads of the formula `from`, which the cell `target` held, into
/// the reads of the formula `to`, which it holds now: `target` leaves the
/// readers of the cells that `from` reads, and joins the readers of the cells
/// that `to` reads.  Where both are aggregates, the cells that both
/// rectangles hold are left alone.  Every change is written down in `log`,
/// so that [`undo`] can take it back.
pub(crate) fn rewire(
    sensi: &mut [Vec<i32>],
    target: i32,
    from: Ops,
    to: Ops,
    columns: i32,
    log: &mut Vec<Change>,
    Ghost(base): Ghost<Seq<Seq<i32>>>,
)
    requires
        tracks(base, old(log)@, old(sensi)@, target),
        columns >= 1,
        0 <= target < old(sensi)@.len(),
        well_formed(old(sensi)@),
        from.valid(old(sensi)@.len() as int, columns as int),
        to.valid(old(sensi)@.len() as int, columns as int),
        forall|x: int|
            0 <= x < old(sensi)@.len() ==> occurrences(#[trigger] old(sensi)@[x]@, target)
                == from.reads(x, columns as int),
    ensures
        tracks(base, final(log)@, final(sensi)@, target),
        final(sensi)@.len() == old(sensi)@.len(),
        well_formed(final(sensi)@),
        forall|x: int, v: i32|
            0 <= x < old(sensi)@.len() ==> #[trigger] occurrences(final(sensi)@[x]@, v)
                == occurrences(old(sensi)@[x]@, v) + only_for(
                target,
                v,
                to.reads(x, columns as int) - from.reads(x, columns as int),
            ),
        forall|x: int|
            0 <= x < old(sensi)@.len() ==> (#[trigger] final(sensi)@[x])@ == rewired(
                old(sensi)@[x]@,
                target,
                from,
                to,
                x,
                columns as int,
            ),
{
    let ghost s0 = sensi@;
    let ghost n = sensi@.len() as int;
    let ghost cols = columns as int;
    if from.code.reads_first() {
        proof {
            lemma_occurrences_contains(s0[from.cell1 as int]@, target);
        }
        note_unlink(sensi, from.cell1 as usize, target, log, Ghost(base));
    }
    let ghost s1 = sensi@;
    assert forall|x: int| 0 <= x < n implies (#[trigger] s1[x])@ == without_last(
        s0[x]@,
        target,
        if from.code.first_is_cell() && from.cell1 == x {
            1nat
        } else {
            0nat
        },
    ) by {
        reveal_with_fuel(without_last, 3);
        if !(from.code.first_is_cell() && from.cell1 == x) {
            assert(s1[x] == s0[x]);
        }
    }
    assert forall|x: int, v: i32| 0 <= x < n implies #[trigger] occurrences(s1[x]@, v)
        == occurrences(s0[x]@, v) + only_for(
        target,
        v,
        if from.code.first_is_cell() && from.cell1 == x {
            -1int
        } else {
            0int
        },
    ) by {
        if !(from.code.first_is_cell() && from.cell1 == x) {
            assert(s1[x] == s0[x]);
        }
    }
    if from.code.reads_second() {
        proof {
            assert(occurrences(s1[from.cell2 as int]@, target) >= 1);
            lemma_occurrences_contains(s1[from.cell2 as int]@, target);
        }
        note_unlink(sensi, from.cell2 as usize, target, log, Ghost(base));
    }
    let ghost s2 = sensi@;
    assert forall|x: int| 0 <= x < n implies (#[trigger] s2[x])@ == without_last(
        s0[x]@,
        target,
        slot_reads(from, x) as nat,
    ) by {
        reveal_with_fuel(without_last, 3);
        assert(s1[x]@ == without_last(
            s0[x]@,
            target,
            if from.code.first_is_cell() && from.cell1 == x {
                1nat
            } else {
                0nat
            },
        ));
        if !(from.code.second_is_cell() && from.cell2 == x) {
            assert(s2[x] == s1[x]);
        }
    }
    assert forall|x: int, v: i32| 0 <= x < n implies #[trigger] occurrences(s2[x]@, v)
        == occurrences(s0[x]@, v) + only_for(target, v, -slot_reads(from, x)) by {
        assert(occurrences(s1[x]@, v) == occurrences(s0[x]@, v) + only_for(
            target,
            v,
            if from.code.first_is_cell() && from.cell1 == x {
                -1int
            } else {
                0int
            },
        ));
        if !(from.code.second_is_cell() && from.cell2 == x) {
            assert(s2[x] == s1[x]);
        }
    }
    if from.code.reads_range() {
        proof {
            assert forall|x: int|
                #![trigger in_rect(x, from.cell1 as int, from.cell2 as int, cols)]
                range_reads(from, x, cols) && !range_reads(to, x, cols) implies s2[x]@.contains(
                target,
            ) by {
                crate::operations::lemma_rect_between_corners(
                    x,
                    from.cell1 as int,
                    from.cell2 as int,
                    cols,
                );
                assert(occurrences(s2[x]@, target) == occurrences(s0[x]@, target) + only_for(
                    target,
                    target,
                    -slot_reads(from, x),
                ));
                lemma_occurrences_contains(s2[x]@, target);
            }
        }
        edit_rect(sensi, target, from, to, columns, false, log, Ghost(base));
    }
    let ghost s3 = sensi@;
    assert forall|x: int| 0 <= x < n implies (#[trigger] s3[x])@ == without_last(
        s0[x]@,
        target,
        leaving(from, to, x, cols),
    ) by {
        reveal_with_fuel(without_last, 3);
        assert(s2[x]@ == without_last(s0[x]@, target, slot_reads(from, x) as nat));
        if from.code.is_range() {
            assert(s3[x]@ == edited(s2[x]@, target, rect_change(from, to, x, cols, -1)));
        } else {
            assert(s3[x] == s2[x]);
        }
    }
    assert forall|x: int, v: i32| 0 <= x < n implies #[trigger] occurrences(s3[x]@, v)
        == occurrences(s0[x]@, v) + only_for(
        target,
        v,
        -slot_reads(from, x) + rect_change(from, to, x, cols, -1),
    ) by {
        assert(occurrences(s2[x]@, v) == occurrences(s0[x]@, v) + only_for(
            target,
            v,
            -slot_reads(from, x),
        ));
    }
    if to.code.reads_first() {
        note_link(sensi, to.cell1 as usize, target, log, Ghost(base));
    }
    let ghost s4 = sensi@;
    assert forall|x: int| 0 <= x < n implies (#[trigger] s4[x])@ == with_more(
        s3[x]@,
        target,
        if to.code.first_is_cell() && to.cell1 == x {
            1nat
        } else {
            0nat
        },
    ) by {
        reveal_with_fuel(with_more, 3);
        if !(to.code.first_is_cell() && to.cell1 == x) {
            assert(s4[x] == s3[x]);
        }
    }
    assert forall|x: int, v: i32| 0 <= x < n implies #[trigger] occurrences(s4[x]@, v)
        == occurrences(s3[x]@, v) + only_for(
        target,
        v,
        if to.code.first_is_cell() && to.cell1 == x {
            1int
        } else {
            0int
        },
    ) by {
        if !(to.code.first_is_cell() && to.cell1 == x) {
            assert(s4[x] == s3[x]);
        }
    }
    if to.code.reads_second() {
        note_link(sensi, to.cell2 as usize, target, log, Ghost(base));
    }
    let ghost s5 = sensi@;
    assert forall|x: int| 0 <= x < n implies (#[trigger] s5[x])@ == with_more(
        s3[x]@,
        target,
        slot_reads(to, x) as nat,
    ) by {
        reveal_with_fuel(with_more, 3);
        assert(s4[x]@ == with_more(
            s3[x]@,
            target,
            if to.code.first_is_cell() && to.cell1 == x {
                1nat
            } else {
                0nat
            },
        ));
        if !(to.code.second_is_cell() && to.cell2 == x) {
            assert(s5[x] == s4[x]);
        }
    }
    assert forall|x: int, v: i32| 0 <= x < n implies #[trigger] occurrences(s5[x]@, v)
        == occurrences(s3[x]@, v) + only_for(target, v, slot_reads(to, x)) by {
        assert(occurrences(s4[x]@, v) == occurrences(s3[x]@, v) + only_for(
            target,
            v,
            if to.code.first_is_cell() && to.cell1 == x {
                1int
            } else {
                0int
            },
        ));
        if !(to.code.second_is_cell() && to.cell2 == x) {
            assert(s5[x] == s4[x]);
        }
    }
    if to.code.reads_range() {
        edit_rect(sensi, target, to, from, columns, true, log, Ghost(base));
    }
    assert forall|x: int| 0 <= x < n implies (#[trigger] sensi@[x])@ == rewired(
        s0[x]@,
        target,
        from,
        to,
        x,
        cols,
    ) by {
        reveal_with_fuel(with_more, 3);
        assert(s5[x]@ == with_more(s3[x]@, target, slot_reads(to, x) as nat));
        assert(s3[x]@ == without_last(s0[x]@, target, leaving(from, to, x, cols)));
        if to.code.is_range() {
            assert(sensi@[x]@ == edited(s5[x]@, target, rect_change(to, from, x, cols, 1)));
        } else {
            assert(sensi@[x] == s5[x]);
        }
    }
    assert forall|x: int, v: i32| 0 <= x < n implies #[trigger] occurrences(sensi@[x]@, v)
        == occurrences(s0[x]@, v) + only_for(target, v, to.reads(x, cols) - from.reads(x, cols)) by {
        assert(occurrences(s5[x]@, v) == occurrences(s3[x]@, v) + only_for(
            target,
            v,
            slot_reads(to, x),
        ));
        assert(occurrences(s3[x]@, v) == occurrences(s0[x]@, v) + only_for(
            target,
            v,
            -slot_reads(from, x) + rect_change(from, to, x, cols, -1),
        ));
        if to.code.is_range() {
            assert(occurrences(sensi@[x]@, v) == occurrences(s5[x]@, v) + only_for(
                target,
                v,
                rect_change(to, from, x, cols, 1),
            ));
        }
    }
}


} // verus!
