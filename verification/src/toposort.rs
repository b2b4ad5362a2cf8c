//! Cycle detection and recompute order for one edited cell.
//!
//! Only the cells that can be reached from the edited cell are looked at.
//! A breadth-first walk counts, for every such cell, the edges that lead into
//! it; if an edge leads back into the edited cell the edit closes a cycle.
//! Otherwise the counters are drained again in Kahn's manner, which yields
//! the cells in an order in which each comes after all cells it reads.

use crate::graph::{
    NO_CELL,
    acyclic_besides,
    all_nodes,
    in_degree,
    inflow,
    is_path,
    is_recompute_order,
    lemma_distinct_nodes_bounded,
    lemma_inflow_covered,
    lemma_inflow_push,
    lemma_inflow_subset,
    lemma_occurrences_contains,
    lemma_occurrences_prefix,
    lemma_occurrences_take,
    lemma_reaches_self,
    lemma_reaches_step,
    lemma_walk_stays,
    occurrences,
    on_cycle,
    ranked,
    reaches,
    stands_after,
    well_formed,
};
use vstd::prelude::*;

verus! {

/// Every counter of the workspace is zero.
pub open spec fn all_zero(s: Seq<i32>) -> bool {
    forall|i: int| 0 <= i < s.len() ==> s[i] == 0
}

/// Every edge out of a listed node leads to a listed node other than `cell`.
pub open spec fn closed(adj: Seq<Vec<i32>>, nodes: Seq<i32>, upto: int, cell: i32) -> bool {
    forall|k: int, i: int|
        0 <= k < upto && 0 <= i < adj[nodes[k] as int]@.len() ==> {
            &&& #[trigger] adj[nodes[k] as int]@[i] != cell
            &&& nodes.contains(adj[nodes[k] as int]@[i])
        }
}

/// The listed nodes are nodes of a graph of `n` nodes, each listed once, and
/// the first of them is `cell`.
pub open spec fn is_frontier(nodes: Seq<i32>, n: int, cell: i32) -> bool {
    &&& nodes.len() >= 1
    &&& nodes[0] == cell
    &&& nodes.no_duplicates()
    &&& forall|k: int| 0 <= k < nodes.len() ==> 0 <= #[trigger] nodes[k] < n
}

/// A list of nodes stays what it is when a node it lacks is appended.
proof fn lemma_frontier_push(nodes: Seq<i32>, n: int, cell: i32, c: i32)
    requires
        is_frontier(nodes, n, cell),
        0 <= c < n,
        !nodes.contains(c),
    ensures
        is_frontier(nodes.push(c), n, cell),
        nodes.push(c).contains(c),
        forall|x: i32| nodes.contains(x) ==> #[trigger] nodes.push(c).contains(x),
        forall|x: i32| #[trigger] nodes.push(c).contains(x) ==> nodes.contains(x) || x == c,
        forall|k: int| 0 <= k <= nodes.len() ==> #[trigger] nodes.push(c).take(k) == nodes.take(k),
{
    let more = nodes.push(c);
    assert(more[nodes.len() as int] == c);
    assert forall|x: i32| nodes.contains(x) implies #[trigger] more.contains(x) by {
        let at = choose|at: int| 0 <= at < nodes.len() && nodes[at] == x;
        assert(more[at] == x);
    }
    assert forall|a: int, b: int| 0 <= a < more.len() && 0 <= b < more.len() && a != b implies more[a]
        != more[b] by {
        if a < nodes.len() {
            assert(nodes.contains(more[a]));
        }
        if b < nodes.len() {
            assert(nodes.contains(more[b]));
        }
    }
    assert forall|k: int| 0 <= k <= nodes.len() implies #[trigger] more.take(k) == nodes.take(
        k,
    ) by {
        assert(more.take(k) =~= nodes.take(k));
    }
}

/// While the walk stands at the edge `i` of the node at `head`, the counter of
/// that edge's target is below the number of all edges into the target.
proof fn lemma_room_for_edge(
    adj: Seq<Vec<i32>>,
    nodes: Seq<i32>,
    head: int,
    i: int,
    counted: int,
)
    requires
        well_formed(adj),
        adj.len() <= i32::MAX,
        is_frontier(nodes, adj.len() as int, nodes[0]),
        0 <= head < nodes.len(),
        0 <= i < adj[nodes[head] as int]@.len(),
        counted == inflow(adj, nodes.take(head), adj[nodes[head] as int]@[i]) + occurrences(
            adj[nodes[head] as int]@.take(i),
            adj[nodes[head] as int]@[i],
        ),
    ensures
        counted < in_degree(adj, adj[nodes[head] as int]@[i]),
{
    let node = nodes[head];
    let edges = adj[node as int]@;
    let c = edges[i];
    let upto = nodes.take(head + 1);
    lemma_occurrences_take(edges, i, c);
    lemma_occurrences_prefix(edges, i + 1, c);
    assert(upto =~= nodes.take(head).push(node));
    lemma_inflow_push(adj, nodes.take(head), node, c);
    let everyone = all_nodes(adj.len());
    assert forall|k: int| 0 <= k < upto.len() implies everyone.contains(#[trigger] upto[k]) by {
        assert(upto[k] == nodes[k]);
        assert(everyone[nodes[k] as int] == nodes[k]);
    }
    lemma_inflow_subset(adj, upto, everyone, c);
}

/// Phase one: walks breadth-first from `cell` and counts, in `indegree`, the
/// edges that lead into each cell met.  Stops at the first edge that leads
/// back into `cell`.
fn discover(adj: &[Vec<i32>], cell: i32, indegree: &mut [i32]) -> (found: (Vec<i32>, bool))
    requires
        well_formed(adj@),
        adj@.len() <= i32::MAX,
        0 <= cell < adj@.len(),
        old(indegree)@.len() == adj@.len(),
        all_zero(old(indegree)@),
        forall|v: i32| 0 <= v < adj@.len() ==> in_degree(adj@, v) <= i32::MAX,
    ensures
        final(indegree)@.len() == adj@.len(),
        is_frontier(found.0@, adj@.len() as int, cell),
        forall|k: int| 0 <= k < found.0@.len() ==> reaches(adj@, cell, #[trigger] found.0@[k]),
        forall|v: int|
            0 <= v < adj@.len() && #[trigger] final(indegree)@[v] != 0 ==> found.0@.contains(
                v as i32,
            ),
        forall|k: int|
            1 <= k < found.0@.len() ==> final(indegree)@[#[trigger] found.0@[k] as int] != 0,
        found.1 ==> on_cycle(adj@, cell),
        !found.1 ==> closed(adj@, found.0@, found.0@.len() as int, cell),
        !found.1 ==> forall|v: int|
            0 <= v < adj@.len() ==> #[trigger] final(indegree)@[v] == inflow(
                adj@,
                found.0@,
                v as i32,
            ),
{
    let ghost graph = adj@;
    let n: usize = adj.len();
    let mut seen: Vec<i32> = Vec::new();
    seen.push(cell);
    let mut head: usize = 0;
    let mut cyclic: bool = false;
    proof {
        lemma_reaches_self(graph, cell);
        assert(seen@.take(0) =~= Seq::<i32>::empty());
    }
    while head < seen.len() && !cyclic
        invariant
            graph == adj@,
            n == graph.len(),
            well_formed(graph),
            n <= i32::MAX,
            0 <= cell < n,
            indegree@.len() == n,
            forall|v: i32| 0 <= v < n ==> in_degree(graph, v) <= i32::MAX,
            is_frontier(seen@, n as int, cell),
            head <= seen@.len(),
            forall|k: int| 0 <= k < seen@.len() ==> reaches(graph, cell, #[trigger] seen@[k]),
            forall|v: int|
                0 <= v < n && #[trigger] indegree@[v] != 0 ==> seen@.contains(v as i32),
            forall|k: int|
                1 <= k < seen@.len() ==> indegree@[#[trigger] seen@[k] as int] != 0,
            cyclic ==> on_cycle(graph, cell),
            !cyclic ==> closed(graph, seen@, head as int, cell),
            !cyclic ==> forall|v: int|
                0 <= v < n ==> #[trigger] indegree@[v] == inflow(
                    graph,
                    seen@.take(head as int),
                    v as i32,
                ),
        decreases 2 * (n - head) + if cyclic { 0int } else { 1int },
    {
        proof {
            lemma_distinct_nodes_bounded(seen@, n as nat);
        }
        let node: usize = seen[head] as usize;
        let edges: &Vec<i32> = &adj[node];
        let mut i: usize = 0;
        proof {
            assert(edges@.take(0) =~= Seq::<i32>::empty());
        }
        while i < edges.len() && !cyclic
            invariant
                graph == adj@,
                n == graph.len(),
                well_formed(graph),
                n <= i32::MAX,
                0 <= cell < n,
                indegree@.len() == n,
                forall|v: i32| 0 <= v < n ==> in_degree(graph, v) <= i32::MAX,
                is_frontier(seen@, n as int, cell),
                head < seen@.len(),
                node == seen@[head as int],
                edges@ == graph[node as int]@,
                i <= edges@.len(),
                forall|k: int| 0 <= k < seen@.len() ==> reaches(graph, cell, #[trigger] seen@[k]),
                forall|v: int|
                    0 <= v < n && #[trigger] indegree@[v] != 0 ==> seen@.contains(v as i32),
                forall|k: int|
                    1 <= k < seen@.len() ==> indegree@[#[trigger] seen@[k] as int] != 0,
                cyclic ==> on_cycle(graph, cell),
                !cyclic ==> closed(graph, seen@, head as int, cell),
                !cyclic ==> forall|j: int|
                    0 <= j < i ==> #[trigger] edges@[j] != cell && seen@.contains(edges@[j]),
                !cyclic ==> forall|v: int|
                    0 <= v < n ==> #[trigger] indegree@[v] == inflow(
                        graph,
                        seen@.take(head as int),
                        v as i32,
                    ) + occurrences(edges@.take(i as int), v as i32),
            decreases 2 * (edges@.len() - i) + if cyclic { 0int } else { 1int },
        {
            let c: i32 = edges[i];
            assert(0 <= c < n);
            if c == cell {
                cyclic = true;
                proof {
                    lemma_reaches_step(graph, cell, node as i32, i as int);
                }
            } else {
                let at: usize = c as usize;
                let ghost before = seen@;
                let ghost counters = indegree@;
                proof {
                    lemma_room_for_edge(graph, seen@, head as int, i as int, indegree@[at as int] as int);
                    lemma_reaches_step(graph, cell, node as i32, i as int);
                }
                if indegree[at] == 0 {
                    proof {
                        if seen@.contains(c) {
                            let k = choose|k: int| 0 <= k < seen@.len() && seen@[k] == c;
                            assert(indegree@[seen@[k] as int] != 0);
                        }
                        lemma_frontier_push(seen@, n as int, cell, c);
                    }
                    seen.push(c);
                }
                indegree[at] = indegree[at] + 1;
                proof {
                    assert(seen@.contains(c)) by {
                        if counters[at as int] != 0 {
                            assert(before.contains(c));
                        }
                    }
                    assert(seen@.take(head as int) =~= before.take(head as int));
                    assert forall|v: int| 0 <= v < n implies #[trigger] indegree@[v] == inflow(
                        graph,
                        seen@.take(head as int),
                        v as i32,
                    ) + occurrences(edges@.take(i + 1), v as i32) by {
                        lemma_occurrences_take(edges@, i as int, v as i32);
                    }
                    assert forall|k: int| 1 <= k < seen@.len() implies indegree@[#[trigger] seen@[k] as int]
                        != 0 by {
                        if k < before.len() {
                            assert(seen@[k] == before[k]);
                            assert(counters[before[k] as int] != 0);
                        }
                    }
                    assert forall|v: int|
                        0 <= v < n && #[trigger] indegree@[v] != 0 implies seen@.contains(
                        v as i32,
                    ) by {
                        if v != at {
                            assert(counters[v] != 0);
                            assert(before.contains(v as i32));
                        }
                    }
                    assert(closed(graph, seen@, head as int, cell)) by {
                        assert forall|k: int, j: int|
                            0 <= k < head && 0 <= j < graph[seen@[k] as int]@.len() implies {
                            &&& #[trigger] graph[seen@[k] as int]@[j] != cell
                            &&& seen@.contains(graph[seen@[k] as int]@[j])
                        } by {
                            assert(seen@[k] == before[k]);
                            assert(before.contains(graph[before[k] as int]@[j]));
                        }
                    }
                    assert forall|j: int| 0 <= j < i + 1 implies #[trigger] edges@[j] != cell
                        && seen@.contains(edges@[j]) by {
                        if j < i {
                            assert(before.contains(edges@[j]));
                        }
                    }
                }
                i = i + 1;
            }
        }
        if !cyclic {
            proof {
                assert(edges@.take(i as int) =~= edges@);
                assert(seen@.take(head + 1) =~= seen@.take(head as int).push(node as i32));
                assert forall|v: int| 0 <= v < n implies #[trigger] indegree@[v] == inflow(
                    graph,
                    seen@.take(head + 1),
                    v as i32,
                ) by {
                    lemma_inflow_push(graph, seen@.take(head as int), node as i32, v as i32);
                }
            }
            head = head + 1;
        }
    }
    proof {
        if !cyclic {
            assert(seen@.take(head as int) =~= seen@);
        }
    }
    (seen, cyclic)
}

/// `u` stands in `out` before the position `q`.
pub open spec fn stands_before(out: Seq<i32>, u: i32, q: int) -> bool {
    exists|p: int| 0 <= p < q && #[trigger] out[p] == u
}

/// Every node of `part` is a node of `whole`.
pub open spec fn among(part: Seq<i32>, whole: Seq<i32>) -> bool {
    forall|q: int| 0 <= q < part.len() ==> whole.contains(#[trigger] part[q])
}

/// While the drain stands at the edge `i` of the node at `done`, the counter
/// of that edge's target has not yet run out.
proof fn lemma_edge_pending(
    adj: Seq<Vec<i32>>,
    seen: Seq<i32>,
    out: Seq<i32>,
    done: int,
    i: int,
    counted: int,
)
    requires
        out.no_duplicates(),
        among(out, seen),
        0 <= done < out.len(),
        0 <= i < adj[out[done] as int]@.len(),
        counted + inflow(adj, out.take(done), adj[out[done] as int]@[i]) + occurrences(
            adj[out[done] as int]@.take(i),
            adj[out[done] as int]@[i],
        ) == inflow(adj, seen, adj[out[done] as int]@[i]),
    ensures
        counted >= 1,
{
    let node = out[done];
    let edges = adj[node as int]@;
    let c = edges[i];
    let upto = out.take(done + 1);
    lemma_occurrences_take(edges, i, c);
    lemma_occurrences_prefix(edges, i + 1, c);
    assert(upto =~= out.take(done).push(node));
    lemma_inflow_push(adj, out.take(done), node, c);
    assert forall|k: int| 0 <= k < upto.len() implies seen.contains(#[trigger] upto[k]) by {
        assert(upto[k] == out[k]);
    }
    lemma_inflow_subset(adj, upto, seen, c);
}

/// Once the counter of `c` has run out at the edge `i` of the node at `done`,
/// every listed node with an edge into `c` has been drained.
proof fn lemma_feeders_done(
    adj: Seq<Vec<i32>>,
    seen: Seq<i32>,
    out: Seq<i32>,
    done: int,
    i: int,
    u: i32,
)
    requires
        out.no_duplicates(),
        among(out, seen),
        0 <= done < out.len(),
        0 <= i < adj[out[done] as int]@.len(),
        inflow(adj, out.take(done), adj[out[done] as int]@[i]) + occurrences(
            adj[out[done] as int]@.take(i + 1),
            adj[out[done] as int]@[i],
        ) == inflow(adj, seen, adj[out[done] as int]@[i]),
        seen.contains(u),
        adj[u as int]@.contains(adj[out[done] as int]@[i]),
    ensures
        stands_before(out, u, done + 1),
{
    let node = out[done];
    let edges = adj[node as int]@;
    let c = edges[i];
    let upto = out.take(done + 1);
    if !upto.contains(u) {
        let more = upto.push(u);
        lemma_occurrences_prefix(edges, i + 1, c);
        assert(upto =~= out.take(done).push(node));
        lemma_inflow_push(adj, out.take(done), node, c);
        lemma_inflow_push(adj, upto, u, c);
        lemma_occurrences_contains(adj[u as int]@, c);
        assert forall|k: int| 0 <= k < more.len() implies seen.contains(#[trigger] more[k]) by {
            if k < upto.len() {
                assert(more[k] == out[k]);
            }
        }
        assert forall|a: int, b: int|
            0 <= a < more.len() && 0 <= b < more.len() && a != b implies more[a] != more[b] by {
            if a < upto.len() {
                assert(upto.contains(upto[a]));
            }
            if b < upto.len() {
                assert(upto.contains(upto[b]));
            }
        }
        lemma_inflow_subset(adj, more, seen, c);
        assert(false);
    }
    let p = choose|p: int| 0 <= p < upto.len() && upto[p] == u;
    assert(out[p] == u);
}

/// When the drain has come to its end, no listed node is left out.
proof fn lemma_all_drained(
    adj: Seq<Vec<i32>>,
    rank: Seq<nat>,
    cell: i32,
    seen: Seq<i32>,
    out: Seq<i32>,
    counters: Seq<i32>,
    v: i32,
)
    requires
        well_formed(adj),
        ranked(adj, rank, cell),
        counters.len() == adj.len(),
        is_frontier(seen, adj.len() as int, cell),
        is_frontier(out, adj.len() as int, cell),
        among(out, seen),
        forall|w: int|
            0 <= w < adj.len() ==> #[trigger] counters[w] >= 0 && counters[w] + inflow(
                adj,
                out,
                w as i32,
            ) == inflow(adj, seen, w as i32),
        forall|k: int|
            0 <= k < seen.len() && counters[#[trigger] seen[k] as int] == 0 ==> out.contains(
                seen[k],
            ),
        seen.contains(v),
    ensures
        out.contains(v),
    decreases rank[v as int],
{
    if !out.contains(v) {
        let at = choose|at: int| 0 <= at < seen.len() && seen[at] == v;
        assert(counters[seen[at] as int] != 0);
        assert(counters[v as int] >= 0);
        if forall|k: int|
            0 <= k < seen.len() && !out.contains(#[trigger] seen[k]) ==> occurrences(
                adj[seen[k] as int]@,
                v,
            ) == 0 {
            lemma_inflow_covered(adj, out, seen, v);
            assert(false);
        }
        let k = choose|k: int|
            0 <= k < seen.len() && !out.contains(#[trigger] seen[k]) && occurrences(
                adj[seen[k] as int]@,
                v,
            ) != 0;
        let u = seen[k];
        lemma_occurrences_contains(adj[u as int]@, v);
        let targets = adj[u as int]@;
        let i = choose|i: int| 0 <= i < targets.len() && targets[i] == v;
        assert(out[0] == cell);
        assert(adj[u as int]@[i] != cell);
        assert(rank[u as int] < rank[v as int]);
        lemma_all_drained(adj, rank, cell, seen, out, counters, u);
    }
}

/// Phase two, when no cycle was met: drains the counters in Kahn's manner and
/// lists the cells in the order in which their counters run out.
fn drain(adj: &[Vec<i32>], cell: i32, indegree: &mut [i32], seen: &Vec<i32>) -> (out: Vec<i32>)
    requires
        well_formed(adj@),
        adj@.len() <= i32::MAX,
        0 <= cell < adj@.len(),
        old(indegree)@.len() == adj@.len(),
        acyclic_besides(adj@, cell),
        is_frontier(seen@, adj@.len() as int, cell),
        closed(adj@, seen@, seen@.len() as int, cell),
        forall|v: int|
            0 <= v < adj@.len() ==> #[trigger] old(indegree)@[v] == inflow(adj@, seen@, v as i32),
        forall|v: int|
            0 <= v < adj@.len() && #[trigger] old(indegree)@[v] != 0 ==> seen@.contains(v as i32),
        forall|k: int| 1 <= k < seen@.len() ==> old(indegree)@[#[trigger] seen@[k] as int] != 0,
    ensures
        final(indegree)@.len() == adj@.len(),
        all_zero(final(indegree)@),
        is_frontier(out@, adj@.len() as int, cell),
        among(out@, seen@),
        among(seen@, out@),
        forall|p: int, i: int|
            0 <= p < out@.len() && 0 <= i < adj@[out@[p] as int]@.len() ==> #[trigger] stands_after(
                out@,
                adj@[out@[p] as int]@[i],
                p,
            ),
{
    let ghost graph = adj@;
    let ghost rank = choose|rank: Seq<nat>| ranked(graph, rank, cell);
    let n: usize = adj.len();
    let mut out: Vec<i32> = Vec::new();
    out.push(cell);
    let mut done: usize = 0;
    proof {
        assert(out@.take(0) =~= Seq::<i32>::empty());
        assert(seen@[0] == cell);
        assert(inflow(graph, seen@, cell) == 0) by {
            let nobody = Seq::<i32>::empty();
            assert forall|k: int|
                0 <= k < seen@.len() && !nobody.contains(#[trigger] seen@[k]) implies occurrences(
                graph[seen@[k] as int]@,
                cell,
            ) == 0 by {
                let targets = graph[seen@[k] as int]@;
                lemma_occurrences_contains(targets, cell);
                if targets.contains(cell) {
                    let i = choose|i: int| 0 <= i < targets.len() && targets[i] == cell;
                    assert(graph[seen@[k] as int]@[i] != cell);
                }
            }
            lemma_inflow_covered(graph, nobody, seen@, cell);
        }
        assert(out@[0] == cell);
        assert forall|q: int, k: int|
            0 <= q < out@.len() && 0 <= k < seen@.len() && graph[seen@[k] as int]@.contains(
                out@[q],
            ) implies #[trigger] stands_before(out@, seen@[k], q) by {
            let targets = graph[seen@[k] as int]@;
            let i = choose|i: int| 0 <= i < targets.len() && targets[i] == cell;
            assert(graph[seen@[k] as int]@[i] != cell);
        }
        assert forall|k: int|
            0 <= k < seen@.len() && indegree@[#[trigger] seen@[k] as int] == 0 implies out@.contains(
            seen@[k],
        ) by {
            assert(k == 0);
        }
    }
    while done < out.len()
        invariant
            graph == adj@,
            n == graph.len(),
            well_formed(graph),
            n <= i32::MAX,
            0 <= cell < n,
            indegree@.len() == n,
            ranked(graph, rank, cell),
            is_frontier(seen@, n as int, cell),
            closed(graph, seen@, seen@.len() as int, cell),
            is_frontier(out@, n as int, cell),
            among(out@, seen@),
            done <= out@.len(),
            forall|v: int|
                0 <= v < n ==> #[trigger] indegree@[v] >= 0 && indegree@[v] + inflow(
                    graph,
                    out@.take(done as int),
                    v as i32,
                ) == inflow(graph, seen@, v as i32),
            forall|v: int|
                0 <= v < n && #[trigger] indegree@[v] != 0 ==> seen@.contains(v as i32),
            forall|q: int| 0 <= q < out@.len() ==> indegree@[#[trigger] out@[q] as int] == 0,
            forall|k: int|
                0 <= k < seen@.len() && indegree@[#[trigger] seen@[k] as int] == 0
                    ==> out@.contains(seen@[k]),
            forall|q: int, k: int|
                0 <= q < out@.len() && 0 <= k < seen@.len() && graph[seen@[k] as int]@.contains(
                    out@[q],
                ) ==> #[trigger] stands_before(out@, seen@[k], q),
        decreases n - done,
    {
        proof {
            lemma_distinct_nodes_bounded(out@, n as nat);
        }
        let node: usize = out[done] as usize;
        let edges: &Vec<i32> = &adj[node];
        let mut i: usize = 0;
        proof {
            assert(edges@.take(0) =~= Seq::<i32>::empty());
        }
        while i < edges.len()
            invariant
                graph == adj@,
                n == graph.len(),
                well_formed(graph),
                n <= i32::MAX,
                0 <= cell < n,
                indegree@.len() == n,
                ranked(graph, rank, cell),
                is_frontier(seen@, n as int, cell),
                closed(graph, seen@, seen@.len() as int, cell),
                is_frontier(out@, n as int, cell),
                among(out@, seen@),
                done < out@.len(),
                node == out@[done as int],
                edges@ == graph[node as int]@,
                i <= edges@.len(),
                forall|v: int|
                    0 <= v < n ==> #[trigger] indegree@[v] >= 0 && indegree@[v] + inflow(
                        graph,
                        out@.take(done as int),
                        v as i32,
                    ) + occurrences(edges@.take(i as int), v as i32) == inflow(
                        graph,
                        seen@,
                        v as i32,
                    ),
                forall|v: int|
                    0 <= v < n && #[trigger] indegree@[v] != 0 ==> seen@.contains(v as i32),
                forall|q: int| 0 <= q < out@.len() ==> indegree@[#[trigger] out@[q] as int] == 0,
                forall|k: int|
                    0 <= k < seen@.len() && indegree@[#[trigger] seen@[k] as int] == 0
                        ==> out@.contains(seen@[k]),
                forall|q: int, k: int|
                    0 <= q < out@.len() && 0 <= k < seen@.len() && graph[seen@[k] as int]@.contains(
                        out@[q],
                    ) ==> #[trigger] stands_before(out@, seen@[k], q),
            decreases edges@.len() - i,
        {
            let c: i32 = edges[i];
            let at: usize = c as usize;
            let ghost before = out@;
            let ghost counters = indegree@;
            proof {
                lemma_edge_pending(
                    graph,
                    seen@,
                    out@,
                    done as int,
                    i as int,
                    indegree@[at as int] as int,
                );
                assert(!out@.contains(c)) by {
                    if out@.contains(c) {
                        let q = choose|q: int| 0 <= q < out@.len() && out@[q] == c;
                        assert(indegree@[out@[q] as int] == 0);
                    }
                }
                assert(seen@.contains(c));
            }
            indegree[at] = indegree[at] - 1;
            proof {
                assert forall|v: int| 0 <= v < n implies #[trigger] indegree@[v] >= 0 && indegree@[v]
                    + inflow(graph, out@.take(done as int), v as i32) + occurrences(
                    edges@.take(i + 1),
                    v as i32,
                ) == inflow(graph, seen@, v as i32) by {
                    lemma_occurrences_take(edges@, i as int, v as i32);
                    assert(counters[v] >= 0);
                }
                assert forall|q: int| 0 <= q < out@.len() implies indegree@[#[trigger] out@[q] as int]
                    == 0 by {
                    assert(out@.contains(out@[q]));
                    assert(counters[out@[q] as int] == 0);
                }
                assert forall|v: int|
                    0 <= v < n && #[trigger] indegree@[v] != 0 implies seen@.contains(v as i32) by {
                    assert(counters[v] != 0);
                }
            }
            if indegree[at] == 0 {
                proof {
                    lemma_frontier_push(out@, n as int, cell, c);
                }
                out.push(c);
                proof {
                    assert(out@.take(done as int) =~= before.take(done as int));
                    assert forall|q: int, k: int|
                        0 <= q < out@.len() && 0 <= k < seen@.len() && graph[seen@[k] as int]@.contains(
                            out@[q],
                        ) implies #[trigger] stands_before(out@, seen@[k], q) by {
                        if q < before.len() {
                            assert(out@[q] == before[q]);
                            assert(stands_before(before, seen@[k], q));
                            let p = choose|p: int| 0 <= p < q && #[trigger] before[p] == seen@[k];
                            assert(out@[p] == seen@[k]);
                        } else {
                            assert(out@[q] == c);
                            lemma_feeders_done(
                                graph,
                                seen@,
                                before,
                                done as int,
                                i as int,
                                seen@[k],
                            );
                            let p = choose|p: int|
                                0 <= p < done + 1 && #[trigger] before[p] == seen@[k];
                            assert(out@[p] == seen@[k]);
                        }
                    }
                    assert forall|k: int|
                        0 <= k < seen@.len() && indegree@[#[trigger] seen@[k] as int] == 0 implies out@.contains(
                        seen@[k],
                    ) by {
                        if seen@[k] != c {
                            assert(counters[seen@[k] as int] == 0);
                            assert(before.contains(seen@[k]));
                        }
                    }
                    assert forall|q: int| 0 <= q < out@.len() implies indegree@[#[trigger] out@[q] as int]
                        == 0 by {
                        if q < before.len() {
                            assert(out@[q] == before[q]);
                        }
                    }
                }
            } else {
                proof {
                    assert forall|k: int|
                        0 <= k < seen@.len() && indegree@[#[trigger] seen@[k] as int] == 0 implies out@.contains(
                        seen@[k],
                    ) by {
                        assert(counters[seen@[k] as int] == 0);
                    }
                }
            }
            i = i + 1;
        }
        proof {
            assert(edges@.take(i as int) =~= edges@);
            assert(out@.take(done + 1) =~= out@.take(done as int).push(node as i32));
            assert forall|v: int| 0 <= v < n implies #[trigger] indegree@[v] >= 0 && indegree@[v]
                + inflow(graph, out@.take(done + 1), v as i32) == inflow(
                graph,
                seen@,
                v as i32,
            ) by {
                lemma_inflow_push(graph, out@.take(done as int), node as i32, v as i32);
            }
        }
        done = done + 1;
    }
    proof {
        assert(out@.take(done as int) =~= out@);
        assert forall|k: int| 0 <= k < seen@.len() implies out@.contains(#[trigger] seen@[k]) by {
            if !out@.contains(seen@[k]) {
                lemma_all_drained(graph, rank, cell, seen@, out@, indegree@, seen@[k]);
            }
        }
        assert forall|v: int| 0 <= v < n implies indegree@[v] == 0 by {
            if indegree@[v] != 0 {
                assert(seen@.contains(v as i32));
                let k = choose|k: int| 0 <= k < seen@.len() && seen@[k] == v as i32;
                assert(out@.contains(seen@[k]));
                let q = choose|q: int| 0 <= q < out@.len() && out@[q] == v as i32;
                assert(indegree@[out@[q] as int] == 0);
            }
        }
        assert forall|p: int, i: int|
            0 <= p < out@.len() && 0 <= i < graph[out@[p] as int]@.len() implies #[trigger] stands_after(
            out@,
            graph[out@[p] as int]@[i],
            p,
        ) by {
            let u = out@[p];
            let c = graph[u as int]@[i];
            assert(seen@.contains(u));
            let k = choose|k: int| 0 <= k < seen@.len() && seen@[k] == u;
            assert(seen@.contains(graph[seen@[k] as int]@[i]));
            let kc = choose|kc: int| 0 <= kc < seen@.len() && seen@[kc] == c;
            assert(out@.contains(seen@[kc]));
            let q = choose|q: int| 0 <= q < out@.len() && out@[q] == c;
            assert(graph[seen@[k] as int]@.contains(out@[q])) by {
                assert(graph[seen@[k] as int]@[i] == out@[q]);
            }
            assert(stands_before(out@, seen@[k], q));
            let p2 = choose|p2: int| 0 <= p2 < q && #[trigger] out@[p2] == seen@[k];
            assert(p2 == p);
            assert(out@[q] == c);
        }
    }
    out
}


/// Phase two, when a cycle was met: puts every counter that phase one raised
/// back to zero.
fn reset(indegree: &mut [i32], seen: &Vec<i32>)
    requires
        old(indegree)@.len() <= i32::MAX,
        forall|k: int| 0 <= k < seen@.len() ==> 0 <= #[trigger] seen@[k] < old(indegree)@.len(),
        forall|v: int|
            0 <= v < old(indegree)@.len() && #[trigger] old(indegree)@[v] != 0 ==> seen@.contains(
                v as i32,
            ),
    ensures
        final(indegree)@.len() == old(indegree)@.len(),
        all_zero(final(indegree)@),
{
    let mut k: usize = 0;
    proof {
        assert forall|v: int|
            0 <= v < indegree@.len() && #[trigger] indegree@[v] != 0 implies exists|j: int|
            0 <= j < seen@.len() && seen@[j] == v by {
            assert(seen@.contains(v as i32));
            let j = choose|j: int| 0 <= j < seen@.len() && seen@[j] == v as i32;
            assert(seen@[j] == v);
        }
    }
    while k < seen.len()
        invariant
            k <= seen@.len(),
            indegree@.len() == old(indegree)@.len(),
            indegree@.len() <= i32::MAX,
            forall|j: int| 0 <= j < seen@.len() ==> 0 <= #[trigger] seen@[j] < indegree@.len(),
            forall|v: int|
                0 <= v < indegree@.len() && #[trigger] indegree@[v] != 0 ==> exists|j: int|
                    k <= j < seen@.len() && seen@[j] == v,
        decreases seen@.len() - k,
    {
        let ghost counters = indegree@;
        indegree[seen[k] as usize] = 0;
        proof {
            assert forall|v: int|
                0 <= v < indegree@.len() && #[trigger] indegree@[v] != 0 implies exists|j: int|
                k + 1 <= j < seen@.len() && seen@[j] == v by {
                assert(counters[v] != 0);
                let j = choose|j: int| k <= j < seen@.len() && seen@[j] == v;
                assert(j != k);
            }
        }
        k = k + 1;
    }
}

/// Finds out whether the edges of `adj` lead from `cell` back into `cell`,
/// and if they do not, in which order the cells that depend on `cell` are to
/// be recomputed.
///
/// `adj[u]` lists the cells that read `u`, and `indegree` is a workspace of
/// one counter per cell that is all zero before the call and all zero again
/// after it.  When `cell` lies on a cycle the result is the single number
/// `-1`.  Otherwise the result starts with the number of cells that follow,
/// and these are `cell` and all cells that can be reached from it, each once
/// and each before the cells that read it.
pub fn topo_sort(adj: &[Vec<i32>], cell: i32, indegree: &mut [i32]) -> (res: Vec<i32>)
    requires
        well_formed(adj@),
        adj@.len() <= i32::MAX,
        0 <= cell < adj@.len(),
        old(indegree)@.len() == adj@.len(),
        all_zero(old(indegree)@),
        acyclic_besides(adj@, cell),
        forall|v: i32| 0 <= v < adj@.len() ==> in_degree(adj@, v) <= i32::MAX,
    ensures
        final(indegree)@.len() == adj@.len(),
        all_zero(final(indegree)@),
        on_cycle(adj@, cell) ==> res@ == seq![NO_CELL],
        !on_cycle(adj@, cell) ==> {
            &&& res@.len() >= 2
            &&& res@[0] == res@.len() - 1
            &&& is_recompute_order(adj@, cell, res@.skip(1))
        },
{
    let ghost graph = adj@;
    let (seen, cyclic) = discover(adj, cell, indegree);
    let mut res: Vec<i32> = Vec::new();
    if cyclic {
        reset(indegree, &seen);
        res.push(NO_CELL);
        assert(res@ =~= seq![NO_CELL]);
        return res;
    }
    proof {
        if on_cycle(graph, cell) {
            let p = choose|p: Seq<i32>| #[trigger]
                is_path(graph, p) && p.len() >= 2 && p[0] == cell && p.last() == cell;
            assert(seen@[0] == cell);
            lemma_walk_stays(graph, seen@, p, p.len() - 2);
            let u = p[p.len() - 2];
            let k = choose|k: int| 0 <= k < seen@.len() && seen@[k] == u;
            let targets = graph[u as int]@;
            assert(targets.contains(p[p.len() - 2 + 1]));
            let i = choose|i: int| 0 <= i < targets.len() && targets[i] == cell;
            assert(graph[seen@[k] as int]@[i] != cell);
        }
    }
    let out = drain(adj, cell, indegree, &seen);
    proof {
        lemma_distinct_nodes_bounded(out@, graph.len());
    }
    res.push(out.len() as i32);
    let mut k: usize = 0;
    while k < out.len()
        invariant
            k <= out@.len(),
            res@.len() == k + 1,
            res@[0] == out@.len(),
            forall|j: int| 0 <= j < k ==> res@[j + 1] == out@[j],
        decreases out@.len() - k,
    {
        res.push(out[k]);
        k = k + 1;
    }
    proof {
        let order = res@.skip(1);
        assert(order =~= out@);
        assert forall|v: i32| reaches(graph, cell, v) <==> #[trigger] order.contains(v) by {
            if reaches(graph, cell, v) {
                let p = choose|p: Seq<i32>| #[trigger]
                    is_path(graph, p) && p[0] == cell && p.last() == v;
                assert(seen@[0] == cell);
                lemma_walk_stays(graph, seen@, p, p.len() - 1);
                let k = choose|k: int| 0 <= k < seen@.len() && seen@[k] == v;
                assert(out@.contains(seen@[k]));
            }
            if order.contains(v) {
                let q = choose|q: int| 0 <= q < out@.len() && out@[q] == v;
                assert(seen@.contains(out@[q]));
                let k = choose|k: int| 0 <= k < seen@.len() && seen@[k] == v;
                assert(reaches(graph, cell, seen@[k]));
            }
        }
        assert(res@.len() >= 2);
        assert(res@[0] == res@.len() - 1);
        assert(order.len() >= 1);
        assert(order[0] == cell);
        assert(order.no_duplicates());
        assert(is_recompute_order(graph, cell, order));
    }
    res
}


} // verus!
