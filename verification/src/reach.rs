use crate::graph::Graph;
use vstd::prelude::*;

verus! {

use crate::graph::Edge;

/// A walk through the graph: consecutive entries are joined by stored edges.
pub open spec fn is_path(g: Graph, p: Seq<usize>) -> bool {
    &&& p.len() > 0
    &&& forall|i: int| 0 <= i < p.len() ==> (#[trigger] p[i]) < g.node_count
    &&& forall|i: int| 0 <= i < p.len() - 1 ==> g.has_edge(#[trigger] p[i] as int, p[i + 1] as int)
}

/// Some walk leads from `s` to `v`.
pub open spec fn reachable(g: Graph, s: usize, v: usize) -> bool {
    exists|p: Seq<usize>| is_path(g, p) && p.first() == s && p.last() == v
}

pub proof fn lemma_reachable_refl(g: Graph, s: usize)
    requires
        s < g.node_count,
    ensures
        reachable(g, s, s),
{
    let p = seq![s];
    assert(is_path(g, p) && p.first() == s && p.last() == s);
}

pub proof fn lemma_reachable_step(g: Graph, s: usize, u: usize, v: usize)
    requires
        reachable(g, s, u),
        g.has_edge(u as int, v as int),
        v < g.node_count,
    ensures
        reachable(g, s, v),
{
    let p = choose|p: Seq<usize>| is_path(g, p) && p.first() == s && p.last() == u;
    let q = p.push(v);
    assert forall|i: int| 0 <= i < q.len() - 1 implies g.has_edge(
        #[trigger] q[i] as int,
        q[i + 1] as int,
    ) by {
        if i < p.len() - 1 {
            assert(q[i] == p[i] && q[i + 1] == p[i + 1]);
        } else {
            assert(q[i] == u && q[i + 1] == v);
        }
    }
    assert(is_path(g, q) && q.first() == s && q.last() == v);
}

/// Every node of a walk that starts inside a set closed under the graph's
/// edges stays inside that set.
proof fn lemma_closed_path(g: Graph, vis: Seq<bool>, p: Seq<usize>)
    requires
        g.wf(),
        vis.len() == g.node_count,
        is_path(g, p),
        vis[p.first() as int],
        forall|u: int, j: int|
            0 <= u < g.node_count && vis[u] && 0 <= j < g.adj@[u]@.len() ==> vis[(
            #[trigger] g.adj@[u]@[j]).to as int],
    ensures
        vis[p.last() as int],
    decreases p.len(),
{
    if p.len() > 1 {
        let q = p.drop_last();
        assert forall|i: int| 0 <= i < q.len() - 1 implies g.has_edge(
            #[trigger] q[i] as int,
            q[i + 1] as int,
        ) by {
            assert(q[i] == p[i] && q[i + 1] == p[i + 1]);
        }
        lemma_closed_path(g, vis, q);
        let u = p[p.len() - 2];
        let v = p.last();
        assert(g.has_edge(u as int, v as int));
        let j = choose|j: int|
            0 <= j < g.adj@[u as int]@.len() && (#[trigger] g.adj@[u as int]@[j]).to as int
                == v as int;
        assert(vis[(g.adj@[u as int]@[j]).to as int]);
    }
}

/// A set of nodes that contains `s` and is closed under the stored edges
/// contains every node reachable from `s`.
pub proof fn lemma_closed_reaches(g: Graph, vis: Seq<bool>, s: usize)
    requires
        g.wf(),
        vis.len() == g.node_count,
        s < g.node_count,
        vis[s as int],
        forall|u: int, j: int|
            0 <= u < g.node_count && vis[u] && 0 <= j < g.adj@[u]@.len() ==> vis[(
            #[trigger] g.adj@[u]@[j]).to as int],
    ensures
        forall|v: usize| #[trigger] reachable(g, s, v) ==> vis[v as int],
{
    assert forall|v: usize| #[trigger] reachable(g, s, v) implies vis[v as int] by {
        let p = choose|p: Seq<usize>| is_path(g, p) && p.first() == s && p.last() == v;
        lemma_closed_path(g, vis, p);
    }
}

/// A weighted walk: `ws[i]` is the weight of a stored edge from `p[i]` to
/// `p[i + 1]`.
pub open spec fn is_wpath(g: Graph, p: Seq<usize>, ws: Seq<u32>) -> bool {
    &&& p.len() == ws.len() + 1
    &&& forall|i: int| 0 <= i < p.len() ==> (#[trigger] p[i]) < g.node_count
    &&& forall|i: int|
        0 <= i < ws.len() ==> g.has_weighted_edge(p[i] as int, p[i + 1] as int, #[trigger] ws[i])
}

/// Total weight of a walk.
pub open spec fn wsum(ws: Seq<u32>) -> int
    decreases ws.len(),
{
    if ws.len() == 0 {
        0
    } else {
        wsum(ws.drop_last()) + ws.last()
    }
}

/// Some weighted walk of total weight exactly `d` leads from `s` to `v`.
pub open spec fn has_dist(g: Graph, s: usize, v: usize, d: int) -> bool {
    exists|p: Seq<usize>, ws: Seq<u32>|
        is_wpath(g, p, ws) && p.first() == s && p.last() == v && wsum(ws) == d
}

/// Every weighted walk from `s` to `v` costs at least `d`.
pub open spec fn dist_lb(g: Graph, s: usize, v: usize, d: int) -> bool {
    forall|p: Seq<usize>, ws: Seq<u32>|
        #[trigger] is_wpath(g, p, ws) && p.first() == s && p.last() == v ==> wsum(ws) >= d
}

/// `d` is the true shortest-path distance from `s` to `v`: some walk costs
/// exactly `d` and none costs less.
pub open spec fn min_dist(g: Graph, s: usize, v: usize, d: int) -> bool {
    has_dist(g, s, v, d) && dist_lb(g, s, v, d)
}

pub proof fn lemma_wsum_nonneg(ws: Seq<u32>)
    ensures
        0 <= wsum(ws),
    decreases ws.len(),
{
    if ws.len() > 0 {
        lemma_wsum_nonneg(ws.drop_last());
    }
}

/// A prefix of a walk costs no more than the whole walk.
pub proof fn lemma_wsum_take(ws: Seq<u32>, k: int)
    requires
        0 <= k <= ws.len(),
    ensures
        wsum(ws.take(k)) <= wsum(ws),
    decreases ws.len(),
{
    if k == ws.len() {
        assert(ws.take(k) =~= ws);
    } else {
        lemma_wsum_take(ws.drop_last(), k);
        assert(ws.drop_last().take(k) =~= ws.take(k));
        lemma_wsum_nonneg(ws);
    }
}

pub proof fn lemma_has_dist_refl(g: Graph, s: usize)
    requires
        s < g.node_count,
    ensures
        has_dist(g, s, s, 0),
{
    let p = seq![s];
    let ws = Seq::<u32>::empty();
    assert(is_wpath(g, p, ws) && p.first() == s && p.last() == s && wsum(ws) == 0);
}

pub proof fn lemma_has_dist_step(g: Graph, s: usize, u: usize, v: usize, w: u32, d: int)
    requires
        has_dist(g, s, u, d),
        g.has_weighted_edge(u as int, v as int, w),
        v < g.node_count,
    ensures
        has_dist(g, s, v, d + w),
{
    let (p, ws) = choose|p: Seq<usize>, ws: Seq<u32>|
        is_wpath(g, p, ws) && p.first() == s && p.last() == u && wsum(ws) == d;
    let p2 = p.push(v);
    let ws2 = ws.push(w);
    assert forall|i: int|
        0 <= i < ws2.len() implies g.has_weighted_edge(
        p2[i] as int,
        p2[i + 1] as int,
        #[trigger] ws2[i],
    ) by {
        if i < ws.len() {
            assert(p2[i] == p[i] && p2[i + 1] == p[i + 1] && ws2[i] == ws[i]);
        } else {
            assert(p2[i] == u && p2[i + 1] == v && ws2[i] == w);
        }
    }
    assert(ws2.drop_last() =~= ws);
    assert(is_wpath(g, p2, ws2) && p2.first() == s && p2.last() == v && wsum(ws2) == d + w);
}

/// A weighted walk is in particular a walk.
pub proof fn lemma_has_dist_reachable(g: Graph, s: usize, v: usize, d: int)
    requires
        has_dist(g, s, v, d),
    ensures
        reachable(g, s, v),
{
    let (p, ws) = choose|p: Seq<usize>, ws: Seq<u32>|
        is_wpath(g, p, ws) && p.first() == s && p.last() == v && wsum(ws) == d;
    assert forall|i: int| 0 <= i < p.len() - 1 implies g.has_edge(
        #[trigger] p[i] as int,
        p[i + 1] as int,
    ) by {
        assert(g.has_weighted_edge(p[i] as int, p[i + 1] as int, ws[i]));
        let j = choose|j: int|
            0 <= j < g.nbrs(p[i] as int).len() && (#[trigger] g.nbrs(p[i] as int)[j]) == (Edge {
                to: p[i + 1],
                weight: ws[i],
            }) && p[i + 1] as int == g.nbrs(p[i] as int)[j].to as int;
        assert((g.nbrs(p[i] as int)[j]).to as int == p[i + 1] as int);
    }
    assert(is_path(g, p) && p.first() == s && p.last() == v);
}

/// One committed edge of a traversal-tree edge list: its target is a new node
/// (never the start, never a repeat), and its source was reached earlier.
pub open spec fn tree_edge_ok(edges: Seq<(usize, usize)>, start: usize, i: int) -> bool {
    &&& edges[i].1 != start
    &&& (edges[i].0 == start || exists|j: int| 0 <= j < i && (#[trigger] edges[j]).1 == edges[i].0)
    &&& forall|j: int| 0 <= j < i ==> (#[trigger] edges[j]).1 != edges[i].1
}

/// The edge list grows a tree rooted at `start`: each edge hangs a node not
/// seen before onto the start node or onto a previously hung node. Such a
/// list is connected to `start` and acyclic.
pub open spec fn tree_shaped(edges: Seq<(usize, usize)>, start: usize) -> bool {
    forall|i: int| 0 <= i < edges.len() ==> #[trigger] tree_edge_ok(edges, start, i)
}

/// Appending an edge from a reached node to a fresh one keeps the list tree-shaped.
pub proof fn lemma_tree_shaped_push(edges: Seq<(usize, usize)>, start: usize, e: (usize, usize))
    requires
        tree_shaped(edges, start),
        e.1 != start,
        e.0 == start || exists|j: int| 0 <= j < edges.len() && (#[trigger] edges[j]).1 == e.0,
        forall|j: int| 0 <= j < edges.len() ==> (#[trigger] edges[j]).1 != e.1,
    ensures
        tree_shaped(edges.push(e), start),
{
    let cur = edges.push(e);
    assert forall|i: int| 0 <= i < cur.len() implies #[trigger] tree_edge_ok(cur, start, i) by {
        if i < edges.len() {
            assert(tree_edge_ok(edges, start, i));
            assert(cur[i] == edges[i]);
            assert forall|j: int| 0 <= j < i implies (#[trigger] cur[j]).1 != cur[i].1 by {
                assert(cur[j] == edges[j]);
            }
            if edges[i].0 != start {
                let j = choose|j: int| 0 <= j < i && (#[trigger] edges[j]).1 == edges[i].0;
                assert(cur[j].1 == cur[i].0);
            }
        } else {
            assert(cur[i] == e);
            if e.0 != start {
                let j = choose|j: int|
                    0 <= j < edges.len() && (#[trigger] edges[j]).1 == e.0;
                assert(cur[j].1 == cur[i].0);
            }
            assert forall|j: int| 0 <= j < i implies (#[trigger] cur[j]).1 != cur[i].1 by {
                assert(cur[j] == edges[j]);
            }
        }
    }
}

} // verus!
