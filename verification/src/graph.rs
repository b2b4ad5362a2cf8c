//! The dependency graph as a mathematical object.
//!
//! The graph is an adjacency structure: `adj[u]` lists, once per read, the
//! cells that read the cell `u`.  An edge from `u` to `v` says that `v` is to
//! be recomputed when `u` changes.

use vstd::prelude::*;

verus! {

/// A number that no cell has as its index.
pub const NO_CELL: i32 = -1;

/// Every listed cell is a node of the graph.
pub open spec fn well_formed(adj: Seq<Vec<i32>>) -> bool {
    forall|u: int, i: int|
        0 <= u < adj.len() && 0 <= i < adj[u]@.len() ==> 0 <= #[trigger] adj[u]@[i] < adj.len()
}

/// How many times `v` occurs in `s`.
pub open spec fn occurrences(s: Seq<i32>, v: i32) -> nat
    decreases s.len(),
{
    if s.len() == 0 {
        0
    } else {
        occurrences(s.drop_last(), v) + if s.last() == v {
            1nat
        } else {
            0nat
        }
    }
}

/// The number of edges into `v` from the listed nodes.
pub open spec fn inflow(adj: Seq<Vec<i32>>, nodes: Seq<i32>, v: i32) -> nat
    decreases nodes.len(),
{
    if nodes.len() == 0 {
        0
    } else {
        inflow(adj, nodes.drop_last(), v) + occurrences(adj[nodes.last() as int]@, v)
    }
}

/// The nodes `0, 1, ..., n - 1`.
pub open spec fn all_nodes(n: nat) -> Seq<i32> {
    Seq::new(n, |i: int| i as i32)
}

/// The number of edges into `v`.
pub open spec fn in_degree(adj: Seq<Vec<i32>>, v: i32) -> nat {
    inflow(adj, all_nodes(adj.len()), v)
}

/// `p` walks along edges of the graph.
pub open spec fn is_path(adj: Seq<Vec<i32>>, p: Seq<i32>) -> bool {
    &&& p.len() >= 1
    &&& forall|k: int| 0 <= k < p.len() ==> 0 <= #[trigger] p[k] < adj.len()
    &&& forall|k: int| 0 <= k < p.len() - 1 ==> adj[#[trigger] p[k] as int]@.contains(p[k + 1])
}

/// `to` can be reached from `from` by following edges, or is `from` itself.
pub open spec fn reaches(adj: Seq<Vec<i32>>, from: i32, to: i32) -> bool {
    exists|p: Seq<i32>| #[trigger] is_path(adj, p) && p[0] == from && p.last() == to
}

/// Some walk of at least one edge leads from `cell` back to `cell`.
pub open spec fn on_cycle(adj: Seq<Vec<i32>>, cell: i32) -> bool {
    exists|p: Seq<i32>| #[trigger]
        is_path(adj, p) && p.len() >= 2 && p[0] == cell && p.last() == cell
}

/// `rank` rises along every edge but those that lead into `except`.
pub open spec fn ranked(adj: Seq<Vec<i32>>, rank: Seq<nat>, except: i32) -> bool {
    &&& rank.len() == adj.len()
    &&& forall|u: int, i: int|
        0 <= u < adj.len() && 0 <= i < adj[u]@.len() && #[trigger] adj[u]@[i] != except
            ==> rank[u] < rank[adj[u]@[i] as int]
}

/// No cycle of the graph avoids `cell`: its nodes can be numbered so that the
/// number rises along every edge that does not lead into `cell`.
pub open spec fn acyclic_besides(adj: Seq<Vec<i32>>, cell: i32) -> bool {
    exists|rank: Seq<nat>| ranked(adj, rank, cell)
}

/// The graph has no cycle: its nodes can be numbered so that the number
/// rises along every edge.
pub open spec fn acyclic(adj: Seq<Vec<i32>>) -> bool {
    exists|rank: Seq<nat>| ranked(adj, rank, NO_CELL)
}

/// `c` stands in `order` after the position `p`.
pub open spec fn stands_after(order: Seq<i32>, c: i32, p: int) -> bool {
    exists|q: int| p < q < order.len() && #[trigger] order[q] == c
}

/// `order` lists, each once, the nodes that can be reached from `cell`,
/// `cell` first and every node before the nodes that read it.
pub open spec fn is_recompute_order(adj: Seq<Vec<i32>>, cell: i32, order: Seq<i32>) -> bool {
    &&& order.len() >= 1
    &&& order[0] == cell
    &&& order.no_duplicates()
    &&& forall|v: i32| reaches(adj, cell, v) <==> #[trigger] order.contains(v)
    &&& forall|p: int, i: int|
        0 <= p < order.len() && 0 <= i < adj[order[p] as int]@.len() ==> #[trigger] stands_after(
            order,
            adj[order[p] as int]@[i],
            p,
        )
}

/// One more element counts once more if it is `v`.
pub proof fn lemma_occurrences_take(s: Seq<i32>, i: int, v: i32)
    requires
        0 <= i < s.len(),
    ensures
        occurrences(s.take(i + 1), v) == occurrences(s.take(i), v) + if s[i] == v {
            1nat
        } else {
            0nat
        },
        occurrences(s.take(0), v) == 0,
{
    assert(s.take(i + 1).drop_last() =~= s.take(i));
}

/// A part of a sequence holds `v` no more often than the whole.
pub proof fn lemma_occurrences_prefix(s: Seq<i32>, i: int, v: i32)
    requires
        0 <= i <= s.len(),
    ensures
        occurrences(s.take(i), v) <= occurrences(s, v),
    decreases s.len() - i,
{
    if i < s.len() {
        lemma_occurrences_take(s, i, v);
        lemma_occurrences_prefix(s, i + 1, v);
    } else {
        assert(s.take(i) =~= s);
    }
}

/// Appending `a` counts once more for `a` and changes no other count.
pub proof fn lemma_occurrences_push(s: Seq<i32>, a: i32, v: i32)
    ensures
        occurrences(s.push(a), v) == occurrences(s, v) + if a == v {
            1nat
        } else {
            0nat
        },
{
    assert(s.push(a).drop_last() =~= s);
}

/// Taking an element out counts once less for it and changes no other
/// count.
pub proof fn lemma_occurrences_remove(s: Seq<i32>, i: int, v: i32)
    requires
        0 <= i < s.len(),
    ensures
        occurrences(s.remove(i), v) + (if s[i] == v {
            1nat
        } else {
            0nat
        }) == occurrences(s, v),
    decreases s.len(),
{
    if i == s.len() - 1 {
        assert(s.remove(i) =~= s.drop_last());
    } else {
        assert(s.remove(i).drop_last() =~= s.drop_last().remove(i));
        lemma_occurrences_remove(s.drop_last(), i, v);
    }
}

/// A value occurs in a sequence exactly if it is counted there.
pub proof fn lemma_occurrences_contains(s: Seq<i32>, v: i32)
    ensures
        occurrences(s, v) > 0 <==> s.contains(v),
    decreases s.len(),
{
    if s.len() > 0 {
        lemma_occurrences_contains(s.drop_last(), v);
        if s.last() == v {
            assert(s[s.len() - 1] == v);
        } else if s.contains(v) {
            let i = choose|i: int| 0 <= i < s.len() && s[i] == v;
            assert(s.drop_last()[i] == v);
        } else if s.drop_last().contains(v) {
            let i = choose|i: int| 0 <= i < s.drop_last().len() && s.drop_last()[i] == v;
            assert(s[i] == v);
        }
    }
}

/// One more node adds the edges from that node.
pub proof fn lemma_inflow_push(adj: Seq<Vec<i32>>, nodes: Seq<i32>, u: i32, v: i32)
    ensures
        inflow(adj, nodes.push(u), v) == inflow(adj, nodes, v) + occurrences(adj[u as int]@, v),
{
    assert(nodes.push(u).drop_last() =~= nodes);
}

/// One node less takes away the edges from that node.
pub proof fn lemma_inflow_remove(adj: Seq<Vec<i32>>, nodes: Seq<i32>, k: int, v: i32)
    requires
        0 <= k < nodes.len(),
    ensures
        inflow(adj, nodes.remove(k), v) + occurrences(adj[nodes[k] as int]@, v) == inflow(
            adj,
            nodes,
            v,
        ),
    decreases nodes.len(),
{
    if k == nodes.len() - 1 {
        assert(nodes.remove(k) =~= nodes.drop_last());
    } else {
        assert(nodes.remove(k).drop_last() =~= nodes.drop_last().remove(k));
        lemma_inflow_remove(adj, nodes.drop_last(), k, v);
    }
}

/// Nodes listed once each, all of them among `big`, send no more edges into
/// `v` than `big` does.
pub proof fn lemma_inflow_subset(adj: Seq<Vec<i32>>, nodes: Seq<i32>, big: Seq<i32>, v: i32)
    requires
        nodes.no_duplicates(),
        forall|k: int| 0 <= k < nodes.len() ==> big.contains(#[trigger] nodes[k]),
    ensures
        inflow(adj, nodes, v) <= inflow(adj, big, v),
    decreases big.len(),
{
    if big.len() == 0 {
        if nodes.len() > 0 {
            assert(big.contains(nodes[0]));
        }
    } else {
        let b = big.last();
        let rest = big.drop_last();
        if nodes.contains(b) {
            let k = choose|k: int| 0 <= k < nodes.len() && nodes[k] == b;
            let fewer = nodes.remove(k);
            assert forall|j: int| 0 <= j < fewer.len() implies rest.contains(
                #[trigger] fewer[j],
            ) by {
                let j0 = if j < k {
                    j
                } else {
                    j + 1
                };
                assert(fewer[j] == nodes[j0]);
                assert(big.contains(nodes[j0]));
                let at = choose|at: int| 0 <= at < big.len() && big[at] == nodes[j0];
                assert(at < big.len() - 1);
                assert(rest[at] == nodes[j0]);
            }
            assert(fewer.no_duplicates());
            lemma_inflow_subset(adj, fewer, rest, v);
            lemma_inflow_remove(adj, nodes, k, v);
        } else {
            assert forall|j: int| 0 <= j < nodes.len() implies rest.contains(
                #[trigger] nodes[j],
            ) by {
                assert(big.contains(nodes[j]));
                let at = choose|at: int| 0 <= at < big.len() && big[at] == nodes[j];
                assert(rest[at] == nodes[j]);
            }
            lemma_inflow_subset(adj, nodes, rest, v);
        }
    }
}

/// If the nodes of `big` that `nodes` lacks send no edge into `v`, then
/// `nodes` sends as many edges into `v` as `big` does.
pub proof fn lemma_inflow_covered(adj: Seq<Vec<i32>>, nodes: Seq<i32>, big: Seq<i32>, v: i32)
    requires
        nodes.no_duplicates(),
        big.no_duplicates(),
        forall|k: int| 0 <= k < nodes.len() ==> big.contains(#[trigger] nodes[k]),
        forall|k: int|
            0 <= k < big.len() && !nodes.contains(#[trigger] big[k]) ==> occurrences(
                adj[big[k] as int]@,
                v,
            ) == 0,
    ensures
        inflow(adj, big, v) == inflow(adj, nodes, v),
    decreases big.len(),
{
    lemma_inflow_subset(adj, nodes, big, v);
    if big.len() == 0 {
    } else {
        let b = big.last();
        let rest = big.drop_last();
        assert(big[big.len() - 1] == b);
        if nodes.contains(b) {
            let k = choose|k: int| 0 <= k < nodes.len() && nodes[k] == b;
            let fewer = nodes.remove(k);
            assert forall|j: int| 0 <= j < fewer.len() implies rest.contains(
                #[trigger] fewer[j],
            ) by {
                let j0 = if j < k {
                    j
                } else {
                    j + 1
                };
                assert(fewer[j] == nodes[j0]);
                assert(big.contains(nodes[j0]));
                let at = choose|at: int| 0 <= at < big.len() && big[at] == nodes[j0];
                assert(at < big.len() - 1);
                assert(rest[at] == nodes[j0]);
            }
            assert(fewer.no_duplicates());
            assert forall|j: int|
                0 <= j < rest.len() && !fewer.contains(#[trigger] rest[j]) implies occurrences(
                adj[rest[j] as int]@,
                v,
            ) == 0 by {
                assert(rest[j] == big[j]);
                if nodes.contains(big[j]) {
                    let at = choose|at: int| 0 <= at < nodes.len() && nodes[at] == big[j];
                    assert(at != k);
                    let at0 = if at < k {
                        at
                    } else {
                        at - 1
                    };
                    assert(fewer[at0] == big[j]);
                }
            }
            lemma_inflow_covered(adj, fewer, rest, v);
            lemma_inflow_remove(adj, nodes, k, v);
        } else {
            assert forall|j: int| 0 <= j < nodes.len() implies rest.contains(
                #[trigger] nodes[j],
            ) by {
                assert(big.contains(nodes[j]));
                let at = choose|at: int| 0 <= at < big.len() && big[at] == nodes[j];
                assert(rest[at] == nodes[j]);
            }
            assert forall|j: int|
                0 <= j < rest.len() && !nodes.contains(#[trigger] rest[j]) implies occurrences(
                adj[rest[j] as int]@,
                v,
            ) == 0 by {
                assert(rest[j] == big[j]);
            }
            lemma_inflow_covered(adj, nodes, rest, v);
        }
    }
}

/// Nodes listed once each are no more than the graph has.
pub proof fn lemma_distinct_nodes_bounded(nodes: Seq<i32>, n: nat)
    requires
        nodes.no_duplicates(),
        forall|k: int| 0 <= k < nodes.len() ==> 0 <= #[trigger] nodes[k] < n,
    ensures
        nodes.len() <= n,
    decreases n,
{
    if nodes.len() > 0 {
        assert(n > 0) by {
            assert(0 <= nodes[0] < n);
        }
        let top = (n - 1) as i32;
        if nodes.contains(top) {
            let k = choose|k: int| 0 <= k < nodes.len() && nodes[k] == top;
            let fewer = nodes.remove(k);
            assert forall|j: int| 0 <= j < fewer.len() implies 0 <= #[trigger] fewer[j] < n
                - 1 by {
                let j0 = if j < k {
                    j
                } else {
                    j + 1
                };
                assert(fewer[j] == nodes[j0]);
            }
            assert(fewer.no_duplicates());
            lemma_distinct_nodes_bounded(fewer, (n - 1) as nat);
        } else {
            assert forall|j: int| 0 <= j < nodes.len() implies 0 <= #[trigger] nodes[j] < n
                - 1 by {
                assert(nodes.contains(nodes[j]));
            }
            lemma_distinct_nodes_bounded(nodes, (n - 1) as nat);
        }
    }
}

/// A walk that starts inside a set of nodes closed under edges stays inside.
pub proof fn lemma_walk_stays(adj: Seq<Vec<i32>>, inside: Seq<i32>, p: Seq<i32>, k: int)
    requires
        is_path(adj, p),
        inside.contains(p[0]),
        forall|j: int, i: int|
            0 <= j < inside.len() && 0 <= i < adj[inside[j] as int]@.len() ==> inside.contains(
                #[trigger] adj[inside[j] as int]@[i],
            ),
        0 <= k < p.len(),
    ensures
        inside.contains(p[k]),
    decreases k,
{
    if k > 0 {
        lemma_walk_stays(adj, inside, p, k - 1);
        let u = p[k - 1];
        let targets = adj[u as int]@;
        let j = choose|j: int| 0 <= j < inside.len() && inside[j] == u;
        assert(targets.contains(p[k]));
        let i = choose|i: int| 0 <= i < targets.len() && targets[i] == p[k];
        assert(inside.contains(adj[inside[j] as int]@[i]));
    }
}

/// Following one more edge from a reachable node reaches its target.
pub proof fn lemma_reaches_step(adj: Seq<Vec<i32>>, from: i32, via: i32, i: int)
    requires
        well_formed(adj),
        reaches(adj, from, via),
        0 <= i < adj[via as int]@.len(),
    ensures
        reaches(adj, from, adj[via as int]@[i]),
        adj[via as int]@[i] == from ==> on_cycle(adj, from),
{
    let to = adj[via as int]@[i];
    let p = choose|p: Seq<i32>| #[trigger] is_path(adj, p) && p[0] == from && p.last() == via;
    let q = p.push(to);
    assert(0 <= via < adj.len());
    assert(0 <= to < adj.len());
    assert forall|k: int| 0 <= k < q.len() - 1 implies adj[#[trigger] q[k] as int]@.contains(
        q[k + 1],
    ) by {
        if k < p.len() - 1 {
            assert(q[k] == p[k]);
            assert(q[k + 1] == p[k + 1]);
        } else {
            assert(q[k] == via);
            assert(adj[via as int]@[i] == q[k + 1]);
        }
    }
    assert(is_path(adj, q));
    assert(q[0] == from && q.last() == to);
}

/// Every node reaches itself.
pub proof fn lemma_reaches_self(adj: Seq<Vec<i32>>, cell: i32)
    requires
        0 <= cell < adj.len(),
    ensures
        reaches(adj, cell, cell),
{
    let p = seq![cell];
    assert(is_path(adj, p));
    assert(p[0] == cell && p.last() == cell);
}

/// The number rises along every walk that never steps into `except`.
pub proof fn lemma_rank_rises(adj: Seq<Vec<i32>>, rank: Seq<nat>, except: i32, p: Seq<i32>, k: int)
    requires
        ranked(adj, rank, except),
        is_path(adj, p),
        forall|j: int| 1 <= j < p.len() ==> #[trigger] p[j] != except,
        0 <= k < p.len(),
    ensures
        k > 0 ==> rank[p[0] as int] < rank[p[k] as int],
    decreases k,
{
    if k > 0 {
        lemma_rank_rises(adj, rank, except, p, k - 1);
        let u = p[k - 1];
        let targets = adj[u as int]@;
        assert(targets.contains(p[k]));
        let i = choose|i: int| 0 <= i < targets.len() && targets[i] == p[k];
        assert(adj[u as int]@[i] != except);
    }
}

} // verus!
