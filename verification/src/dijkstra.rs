use crate::frontier::{copy_pairs, copy_usizes, edges_from, edges_from_vec};
use crate::graph::{Graph, Visualization, VisualizationStep};
use crate::marks::{false_flags, no_parents};
use crate::reach::{
    dist_lb, has_dist, is_wpath, lemma_has_dist_refl, lemma_has_dist_step, lemma_reachable_refl,
    lemma_reachable_step, lemma_wsum_nonneg, lemma_wsum_take, min_dist, reachable, wsum,
};
use crate::text::label_city;
use vstd::prelude::*;

verus! {

use crate::graph::Edge;
use crate::graph::resolve_city;
use crate::graph::spec_resolve;
use vstd::pervasive::unreached;

/// A frontier entry: the tentative distance of `position` when it was pushed.
#[derive(Clone, Copy, PartialEq, Eq, Structural)]
struct State {
    cost: u32,
    position: usize,
}

/// Sum of the first `k` tentative distances.
pub open spec fn sum_upto(s: Seq<u32>, k: int) -> int
    decreases k,
{
    if k <= 0 {
        0
    } else {
        sum_upto(s, k - 1) + s[k - 1]
    }
}

proof fn lemma_sum_upto_nonneg(s: Seq<u32>, k: int)
    requires
        0 <= k <= s.len(),
    ensures
        0 <= sum_upto(s, k),
    decreases k,
{
    if k > 0 {
        lemma_sum_upto_nonneg(s, k - 1);
    }
}

/// Lowering one entry lowers the sum by the same amount.
proof fn lemma_sum_upto_update(s: Seq<u32>, v: int, x: u32, k: int)
    requires
        0 <= v < s.len(),
        0 <= k <= s.len(),
    ensures
        sum_upto(s.update(v, x), k) == sum_upto(s, k) + if v < k {
            x - s[v]
        } else {
            0int
        },
    decreases k,
{
    if k > 0 {
        lemma_sum_upto_update(s, v, x, k - 1);
    }
}

/// Removes and returns a cheapest frontier entry, if the frontier is non-empty.
fn pop_min(pq: &mut Vec<State>) -> (r: Option<State>)
    ensures
        old(pq)@.len() == 0 ==> r is None && final(pq)@ == old(pq)@,
        old(pq)@.len() > 0 ==> match r {
            Some(s) => {
                &&& exists|i: int|
                    0 <= i < old(pq)@.len() && s == old(pq)@[i] && final(pq)@ == old(pq)@.remove(i)
                &&& forall|k: int| 0 <= k < old(pq)@.len() ==> s.cost <= (#[trigger] old(pq)@[k]).cost
            },
            None => false,
        },
{
    if pq.len() == 0 {
        return None;
    }
    let mut best: usize = 0;
    let mut j: usize = 1;
    while j < pq.len()
        invariant
            pq@.len() > 0,
            best < j <= pq@.len(),
            forall|k: int| 0 <= k < j ==> pq@[best as int].cost <= (#[trigger] pq@[k]).cost,
        decreases pq@.len() - j,
    {
        if pq[j].cost < pq[best].cost {
            best = j;
        }
        j += 1;
    }
    let s = pq.remove(best);
    Some(s)
}

/// The index of the first entry of `p` (from `k` on) that is not settled.
proof fn first_unsettled_index(settled: Seq<bool>, p: Seq<usize>, k: int) -> (m: int)
    requires
        0 <= k < p.len(),
        forall|i: int| 0 <= i < p.len() ==> (#[trigger] p[i]) < settled.len(),
        exists|i: int| k <= i < p.len() && !settled[(#[trigger] p[i]) as int],
        forall|i: int| 0 <= i < k ==> settled[(#[trigger] p[i]) as int],
    ensures
        k <= m < p.len(),
        !settled[p[m] as int],
        forall|i: int| 0 <= i < m ==> settled[(#[trigger] p[i]) as int],
    decreases p.len() - k,
{
    if !settled[p[k] as int] {
        k
    } else {
        first_unsettled_index(settled, p, k + 1)
    }
}

/// Along a walk whose nodes (except possibly the last) are all settled, and
/// with every settled node fully relaxed, the recorded tentative distance of
/// the walk's end is at most the walk's weight.
proof fn lemma_settled_path_bound(
    g: Graph,
    s: usize,
    dist: Seq<u32>,
    settled: Seq<bool>,
    p: Seq<usize>,
    ws: Seq<u32>,
)
    requires
        g.wf(),
        dist.len() == g.node_count,
        settled.len() == g.node_count,
        s < g.node_count,
        dist[s as int] == 0,
        is_wpath(g, p, ws),
        p.first() == s,
        forall|i: int| 0 <= i < p.len() - 1 ==> settled[(#[trigger] p[i]) as int],
        forall|u: int, j: int|
            0 <= u < g.node_count && settled[u] && 0 <= j < g.adj@[u]@.len() ==> dist[(
            #[trigger] g.adj@[u]@[j]).to as int] as int <= dist[u] + g.adj@[u]@[j].weight,
    ensures
        dist[p.last() as int] as int <= wsum(ws),
    decreases p.len(),
{
    if p.len() == 1 {
        lemma_wsum_nonneg(ws);
    } else {
        let q = p.drop_last();
        let wsq = ws.drop_last();
        assert forall|i: int|
            0 <= i < wsq.len() implies g.has_weighted_edge(
            q[i] as int,
            q[i + 1] as int,
            #[trigger] wsq[i],
        ) by {
            assert(q[i] == p[i] && q[i + 1] == p[i + 1] && wsq[i] == ws[i]);
            assert(g.has_weighted_edge(p[i] as int, p[i + 1] as int, ws[i]));
        }
        assert(is_wpath(g, q, wsq));
        lemma_settled_path_bound(g, s, dist, settled, q, wsq);
        let u = p[p.len() - 2];
        let v = p.last();
        let w = ws.last();
        assert(g.has_weighted_edge(u as int, v as int, w));
        let j = choose|j: int|
            0 <= j < g.nbrs(u as int).len() && (#[trigger] g.nbrs(u as int)[j]) == (Edge {
                to: v,
                weight: w,
            }) && v as int == g.nbrs(u as int)[j].to as int;
        assert(settled[u as int]);
        assert(dist[(g.adj@[u as int]@[j]).to as int] as int <= dist[u as int] + g.adj@[u as int]@[j].weight);
    }
}

/// When a node is taken from the frontier at the frontier's minimum recorded
/// distance, no weighted walk from the start can beat that distance: any such
/// walk first crosses from the settled region to an unsettled node, whose
/// recorded distance is a lower bound on the walk and an upper bound on the
/// minimum.
proof fn lemma_settle_lower_bound(
    g: Graph,
    s: usize,
    dist: Seq<u32>,
    settled: Seq<bool>,
    pq: Seq<State>,
    v: usize,
)
    requires
        g.wf(),
        dist.len() == g.node_count,
        settled.len() == g.node_count,
        s < g.node_count,
        v < g.node_count,
        dist[s as int] == 0,
        settled[s as int] || v == s,
        !settled[v as int],
        forall|u: int, j: int|
            0 <= u < g.node_count && settled[u] && 0 <= j < g.adj@[u]@.len() ==> dist[(
            #[trigger] g.adj@[u]@[j]).to as int] as int <= dist[u] + g.adj@[u]@[j].weight,
        forall|t: int|
            0 <= t < g.node_count && !settled[t] && dist[t] < u32::MAX ==> exists|k: int|
                0 <= k < pq.len() && (#[trigger] pq[k]) == (State {
                    cost: dist[t],
                    position: t as usize,
                }),
        forall|k: int| 0 <= k < pq.len() ==> dist[v as int] <= (#[trigger] pq[k]).cost,
    ensures
        dist_lb(g, s, v, dist[v as int] as int),
{
    assert forall|p: Seq<usize>, ws: Seq<u32>|
        #[trigger] is_wpath(g, p, ws) && p.first() == s && p.last() == v implies wsum(ws) >= dist[v
        as int] by {
        lemma_wsum_nonneg(ws);
        if v == s && !settled[s as int] {
            // the start settles at distance zero, and weights are non-negative
        } else {
            assert(!settled[p[p.len() - 1] as int]);
            let m = first_unsettled_index(settled, p, 0);
            assert(m >= 1) by {
                assert(settled[p[0] as int]);
            }
            let pref = p.take(m + 1);
            let wpref = ws.take(m);
            assert forall|i: int|
                0 <= i < wpref.len() implies g.has_weighted_edge(
                pref[i] as int,
                pref[i + 1] as int,
                #[trigger] wpref[i],
            ) by {
                assert(pref[i] == p[i] && pref[i + 1] == p[i + 1] && wpref[i] == ws[i]);
                assert(g.has_weighted_edge(p[i] as int, p[i + 1] as int, ws[i]));
            }
            assert(is_wpath(g, pref, wpref));
            assert(pref.first() == s && pref.last() == p[m]);
            assert forall|i: int| 0 <= i < pref.len() - 1 implies settled[(
            #[trigger] pref[i]) as int] by {
                assert(pref[i] == p[i]);
            }
            lemma_settled_path_bound(g, s, dist, settled, pref, wpref);
            lemma_wsum_take(ws, m);
            let t = p[m];
            if dist[t as int] < u32::MAX {
                assert(exists|k: int|
                    0 <= k < pq.len() && (#[trigger] pq[k]) == (State {
                        cost: dist[t as int],
                        position: t,
                    }));
                let k = choose|k: int|
                    0 <= k < pq.len() && (#[trigger] pq[k]) == (State {
                        cost: dist[t as int],
                        position: t,
                    });
                assert(dist[v as int] <= pq[k].cost);
            }
        }
    }
}

/// The recorded distances behind a completed trace, one per settled node in
/// settle order: the start settles at zero; each settled node's distance is
/// the true shortest-path distance; settling proceeds in non-decreasing
/// distance order; each committed tree edge realizes its target's distance
/// from an earlier settled source, so the terminal tree is a shortest-path
/// tree; and no stored edge leaves the settled set unless following it would
/// reach or exceed the largest representable distance (distances saturate, so
/// such a target counts as unreachable).
/// The `i`-th committed tree edge hangs its target onto an earlier settled
/// node by a stored edge whose weight accounts exactly for the target's
/// distance.
pub open spec fn tree_edge_realizes(
    g: Graph,
    settled: Seq<usize>,
    tree: Seq<(usize, usize)>,
    dists: Seq<u32>,
    i: int,
) -> bool {
    exists|a: int, w: u32|
        0 <= a <= i && settled[a] == tree[i].0 && g.has_weighted_edge(
            tree[i].0 as int,
            tree[i].1 as int,
            w,
        ) && dists[i + 1] as int == dists[a] + w
}

pub open spec fn dijkstra_dists_ok(
    g: Graph,
    start: usize,
    settled: Seq<usize>,
    tree: Seq<(usize, usize)>,
    dists: Seq<u32>,
) -> bool {
    &&& dists.len() == settled.len()
    &&& dists.len() > 0 ==> dists[0] == 0
    &&& forall|i: int|
        0 <= i < settled.len() ==> min_dist(g, start, settled[i], (#[trigger] dists[i]) as int)
    &&& forall|a: int, b: int| 0 <= a < b < dists.len() ==> dists[a] <= dists[b]
    &&& forall|i: int|
        0 <= i < tree.len() ==> #[trigger] tree_edge_realizes(g, settled, tree, dists, i)
    &&& forall|i: int, j: int|
        0 <= i < settled.len() && 0 <= j < g.adj@[settled[i] as int]@.len() ==> dists[i] + (
        #[trigger] g.adj@[settled[i] as int]@[j]).weight >= u32::MAX as int || settled.contains(
            g.adj@[settled[i] as int]@[j].to,
        )
}

/// What a completed shortest-path trace promises.
///
/// One snapshot documents initialization, one follows per settled node in
/// settle order, and a terminal snapshot closes the trace. The snapshot of
/// the `k`-th settled node carries the first `k` settled nodes and the first
/// `k-1` committed tree edges, so committed edges only grow. Every settled
/// node is reachable from the start; the committed edges hang each settled
/// node (after the first, which is the start) onto an earlier settled node by
/// a stored graph edge. Some distance list satisfies `dijkstra_dists_ok`:
/// settled nodes carry their true shortest-path distances in non-decreasing
/// order, the committed edges form a shortest-path tree, and every node
/// reachable within the representable distance range is settled.
pub open spec fn dijkstra_trace_ok(
    g: Graph,
    names: Seq<String>,
    start: usize,
    steps: Seq<VisualizationStep>,
) -> bool {
    let last = steps[steps.len() - 1];
    let settled = last.visited_nodes@;
    let tree = last.edges_in_path@;
    &&& steps.len() == settled.len() + 2
    &&& settled.len() >= 1
    &&& settled[0] == start
    &&& forall|a: int, b: int| 0 <= a < b < settled.len() ==> settled[a] != settled[b]
    &&& forall|i: int|
        0 <= i < settled.len() ==> (#[trigger] settled[i]) < g.node_count && reachable(
            g,
            start,
            settled[i],
        )
    &&& steps[0].visited_nodes@ == Seq::<usize>::empty()
    &&& steps[0].current_node == Some(start)
    &&& steps[0].edges_in_path@ == Seq::<(usize, usize)>::empty()
    &&& steps[0].candidate_edges@ == edges_from(g, start)
    &&& steps[0].explanation@ == "Starting Dijkstra's algorithm from "@ + names[start as int]@
    &&& forall|k: int|
        1 <= k <= settled.len() ==> {
            let st = #[trigger] steps[k];
            &&& st.current_node == Some(settled[k - 1])
            &&& st.visited_nodes@ == settled.take(k)
            &&& st.edges_in_path@ == tree.take(k - 1)
            &&& st.candidate_edges@ == edges_from(g, settled[k - 1])
            &&& st.explanation@ == "Visiting node "@ + names[settled[k - 1] as int]@
        }
    &&& last.current_node is None
    &&& last.candidate_edges@ == Seq::<(usize, usize)>::empty()
    &&& last.explanation@ == "Dijkstra's algorithm complete"@
    &&& tree.len() + 1 == settled.len()
    &&& forall|i: int|
        0 <= i < tree.len() ==> {
            let e = #[trigger] tree[i];
            &&& e.1 == settled[i + 1]
            &&& g.has_edge(e.0 as int, e.1 as int)
            &&& exists|a: int| 0 <= a <= i && settled[a] == e.0
        }
    &&& exists|dists: Seq<u32>| #[trigger] dijkstra_dists_ok(g, start, settled, tree, dists)
}

/// Single-source shortest paths from the named start city by relaxation over
/// a minimum-distance frontier, recording one snapshot at initialization, one
/// per settled node, and one terminal snapshot. Distances saturate: a node
/// whose tentative distance would reach the largest representable value is
/// treated as unreachable. Stale frontier entries are skipped silently. An
/// unknown start name yields an empty trace.
#[verifier::rlimit(100)]
pub fn dijkstra(graph: &Graph, idx_to_city: &Vec<String>, root_cityname_for_dijkstra: &String) -> (
    viz: Visualization)
    requires
        graph.wf(),
        idx_to_city@.len() == graph.node_count,
    ensures
        spec_resolve(idx_to_city@, root_cityname_for_dijkstra@) is None ==> viz.steps@.len() == 0,
        match spec_resolve(idx_to_city@, root_cityname_for_dijkstra@) {
            Some(start) => dijkstra_trace_ok(*graph, idx_to_city@, start, viz.steps@),
            None => true,
        },
{
    let start = match resolve_city(idx_to_city, root_cityname_for_dijkstra) {
        Some(idx) => idx,
        None => {
            return Visualization { steps: Vec::new() };
        },
    };
    let n = graph.node_count;
    let mut dist: Vec<u32> = Vec::new();
    let mut i: usize = 0;
    while i < n
        invariant
            i <= n,
            dist@.len() == i,
            forall|k: int| 0 <= k < i ==> (#[trigger] dist@[k]) == u32::MAX,
        decreases n - i,
    {
        dist.push(u32::MAX);
        i += 1;
    }
    dist[start] = 0;
    let mut prev = no_parents(n);
    let mut settled = false_flags(n);
    let mut settle_order: Vec<usize> = Vec::new();
    let mut settle_dists: Vec<u32> = Vec::new();
    let mut path_edges: Vec<(usize, usize)> = Vec::new();
    let mut pq: Vec<State> = Vec::new();
    pq.push(State { cost: 0, position: start });
    let mut viz_steps: Vec<VisualizationStep> = Vec::new();
    viz_steps.push(
        VisualizationStep {
            visited_nodes: Vec::new(),
            current_node: Some(start),
            edges_in_path: Vec::new(),
            candidate_edges: edges_from_vec(graph, start),
            explanation: label_city("Starting Dijkstra's algorithm from ", &idx_to_city[start]),
        },
    );
    proof {
        assert(pq@ =~= seq![(State { cost: 0u32, position: start })]);
        lemma_has_dist_refl(*graph, start);
        assert forall|t: int|
            0 <= t < n && !settled@[t] && dist@[t] < u32::MAX implies exists|k: int|
                0 <= k < pq@.len() && (#[trigger] pq@[k]) == (State {
                    cost: dist@[t],
                    position: t as usize,
                }) by {
            assert(t == start as int);
            assert(pq@[0] == (State { cost: dist@[t], position: t as usize }));
        }
    }

    while pq.len() > 0
        invariant
            graph.wf(),
            idx_to_city@.len() == graph.node_count,
            n == graph.node_count,
            start < n,
            dist@.len() == n,
            prev@.len() == n,
            settled@.len() == n,
            dist@[start as int] == 0,
            prev@[start as int] is None,
            forall|k: int|
                0 <= k < pq@.len() ==> ((#[trigger] pq@[k]).position < n && pq@[k].cost < u32::MAX
                    && pq@[k].cost >= dist@[pq@[k].position as int]),
            forall|k: int|
                0 <= k < pq@.len() && settled@[(#[trigger] pq@[k]).position as int] ==> pq@[k].cost
                    > dist@[pq@[k].position as int],
            forall|k1: int, k2: int|
                0 <= k1 < k2 < pq@.len() && (#[trigger] pq@[k1]).position == (
                #[trigger] pq@[k2]).position ==> pq@[k1].cost != pq@[k2].cost,
            forall|t: int|
                0 <= t < n && !settled@[t] && dist@[t] < u32::MAX ==> exists|k: int|
                    0 <= k < pq@.len() && (#[trigger] pq@[k]) == (State {
                        cost: dist@[t],
                        position: t as usize,
                    }),
            forall|v: int|
                0 <= v < n && v != start && dist@[v] < u32::MAX ==> (#[trigger] prev@[v]) is Some,
            forall|v: int|
                0 <= v < n ==> match #[trigger] prev@[v] {
                    Some(p) => p < n && settled@[p as int] && graph.has_edge(p as int, v) && exists|
                        w: u32,
                    |
                        graph.has_weighted_edge(p as int, v, w) && dist@[v] as int == dist@[p as int]
                            + w,
                    None => true,
                },
            forall|v: int|
                0 <= v < n && #[trigger] settled@[v] ==> reachable(*graph, start, v as usize)
                    && dist@[v] < u32::MAX,
            forall|v: int|
                0 <= v < n && dist@[v] < u32::MAX ==> has_dist(
                    *graph,
                    start,
                    v as usize,
                    (#[trigger] dist@[v]) as int,
                ),
            forall|v: int|
                0 <= v < n && #[trigger] settled@[v] ==> dist_lb(
                    *graph,
                    start,
                    v as usize,
                    dist@[v] as int,
                ),
            forall|u: int, j: int|
                0 <= u < n && settled@[u] && 0 <= j < graph.adj@[u]@.len() ==> dist@[(
                #[trigger] graph.adj@[u]@[j]).to as int] as int <= dist@[u] + graph.adj@[u]@[j].weight,
            forall|i2: int|
                0 <= i2 < settle_order@.len() ==> (#[trigger] settle_order@[i2]) < n && settled@[
                    settle_order@[i2] as int],
            forall|a: int, b: int|
                0 <= a < b < settle_order@.len() ==> settle_order@[a] != settle_order@[b],
            forall|v: int|
                0 <= v < n && #[trigger] settled@[v] ==> settle_order@.contains(v as usize),
            settle_dists@.len() == settle_order@.len(),
            forall|i2: int|
                0 <= i2 < settle_order@.len() ==> (#[trigger] settle_dists@[i2]) == dist@[
                    settle_order@[i2] as int],
            forall|a: int, b: int|
                0 <= a < b < settle_dists@.len() ==> settle_dists@[a] <= settle_dists@[b],
            forall|i2: int, t: int|
                #![trigger settle_dists@[i2], dist@[t]]
                0 <= i2 < settle_dists@.len() && 0 <= t < n && !settled@[t] ==> dist@[t]
                    >= settle_dists@[i2],
            (settle_order@.len() == 0 && pq@ == seq![(State { cost: 0u32, position: start })] && (
            forall|v: int| 0 <= v < n ==> !settled@[v]) && path_edges@.len() == 0) || (
            settle_order@.len() > 0 && settle_order@[0] == start && settled@[start as int]
                && path_edges@.len() + 1 == settle_order@.len()),
            forall|i2: int|
                0 <= i2 < path_edges@.len() ==> {
                    let e = #[trigger] path_edges@[i2];
                    &&& e.1 == settle_order@[i2 + 1]
                    &&& graph.has_edge(e.0 as int, e.1 as int)
                    &&& exists|a: int, w: u32|
                        0 <= a <= i2 && settle_order@[a] == e.0 && graph.has_weighted_edge(
                            e.0 as int,
                            e.1 as int,
                            w,
                        ) && settle_dists@[i2 + 1] as int == settle_dists@[a] + w
                },
            viz_steps@.len() == settle_order@.len() + 1,
            viz_steps@[0].visited_nodes@ == Seq::<usize>::empty(),
            viz_steps@[0].current_node == Some(start),
            viz_steps@[0].edges_in_path@ == Seq::<(usize, usize)>::empty(),
            viz_steps@[0].candidate_edges@ == edges_from(*graph, start),
            viz_steps@[0].explanation@ == "Starting Dijkstra's algorithm from "@ + idx_to_city@[start as int]@,
            forall|k: int|
                1 <= k <= settle_order@.len() ==> {
                    let st = #[trigger] viz_steps@[k];
                    &&& st.current_node == Some(settle_order@[k - 1])
                    &&& st.visited_nodes@ == settle_order@.take(k)
                    &&& st.edges_in_path@ == path_edges@.take(k - 1)
                    &&& st.candidate_edges@ == edges_from(*graph, settle_order@[k - 1])
                    &&& st.explanation@ == "Visiting node "@ + idx_to_city@[settle_order@[k - 1] as int]@
                },
        decreases pq@.len() + sum_upto(dist@, n as int),
    {
        let ghost pq0 = pq@;
        let ghost m0 = pq@.len() + sum_upto(dist@, n as int);
        let st = match pop_min(&mut pq) {
            Some(s) => s,
            None => unreached(),
        };
        let cost = st.cost;
        let position = st.position;
        let ghost i0 = choose|i0: int|
            0 <= i0 < pq0.len() && st == pq0[i0] && pq@ == pq0.remove(i0);
        proof {
            assert(pq@ == pq0.remove(i0));
            assert forall|k: int| 0 <= k < pq@.len() implies pq@[k] == pq0[if k < i0 {
                k
            } else {
                k + 1
            }] by {
                assert(pq@ == pq0.remove(i0));
            }
            assert forall|k1: int, k2: int|
                0 <= k1 < k2 < pq@.len() && (#[trigger] pq@[k1]).position == (
                #[trigger] pq@[k2]).position implies pq@[k1].cost != pq@[k2].cost by {
                let kk1: int = if k1 < i0 { k1 } else { k1 + 1 };
                let kk2: int = if k2 < i0 { k2 } else { k2 + 1 };
                assert(pq@[k1] == pq0[kk1] && pq@[k2] == pq0[kk2]);
                assert(kk1 < kk2);
            }
            lemma_sum_upto_nonneg(dist@, n as int);
        }

        if cost > dist[position] {
            // stale entry: a shorter tentative distance was found meanwhile;
            // every other node's frontier entry survives the removal
            proof {
                assert forall|t: int|
                    0 <= t < n && !settled@[t] && dist@[t] < u32::MAX implies exists|k: int|
                        0 <= k < pq@.len() && (#[trigger] pq@[k]) == (State {
                            cost: dist@[t],
                            position: t as usize,
                        }) by {
                    let w = State { cost: dist@[t], position: t as usize };
                    let k0 = choose|k0: int| 0 <= k0 < pq0.len() && (#[trigger] pq0[k0]) == w;
                    assert(k0 != i0);
                    if k0 < i0 {
                        assert(pq@[k0] == w);
                    } else {
                        assert(pq@[k0 - 1] == w);
                    }
                }
            }
        } else {
            proof {
                assert(cost == dist@[position as int]);
                assert(!settled@[position as int]);
                if settle_order@.len() == 0 {
                    assert(pq0[i0] == (State { cost: 0u32, position: start }));
                }
                // the settling node's recorded distance is now provably minimal
                lemma_settle_lower_bound(*graph, start, dist@, settled@, pq0, position);
            }
            proof {
                assert forall|k: int|
                    0 <= k < pq@.len() && (#[trigger] pq@[k]).position == position implies
                    pq@[k].cost > dist@[position as int] by {
                    let kk: int = if k < i0 { k } else { k + 1 };
                    assert(pq@[k] == pq0[kk]);
                    if kk < i0 {
                        assert(pq0[kk].cost != pq0[i0].cost);
                    } else {
                        assert(pq0[i0].cost != pq0[kk].cost);
                    }
                    assert(pq@[k].cost >= dist@[pq@[k].position as int]);
                }
                assert forall|t: int|
                    0 <= t < n && !settled@[t] && t != position as int && dist@[t]
                        < u32::MAX implies exists|k: int|
                        0 <= k < pq@.len() && (#[trigger] pq@[k]) == (State {
                            cost: dist@[t],
                            position: t as usize,
                        }) by {
                    let w = State { cost: dist@[t], position: t as usize };
                    let k0 = choose|k0: int| 0 <= k0 < pq0.len() && (#[trigger] pq0[k0]) == w;
                    if k0 == i0 {
                        assert(w.position == position);
                        assert(false);
                    }
                    if k0 < i0 {
                        assert(pq@[k0] == w);
                    } else {
                        assert(pq@[k0 - 1] == w);
                    }
                }
                // everything still unsettled sits at or above the new distance
                assert forall|t: int|
                    0 <= t < n && !settled@[t] && t != position as int implies dist@[t]
                        >= cost by {
                    if dist@[t] < u32::MAX {
                        let w = State { cost: dist@[t], position: t as usize };
                        let k0 = choose|k0: int| 0 <= k0 < pq0.len() && (#[trigger] pq0[k0]) == w;
                        assert(cost <= pq0[k0].cost);
                    }
                }
            }
            let ghost settled0 = settled@;
            let ghost order0 = settle_order@;
            let ghost dists0 = settle_dists@;
            let ghost edges0 = path_edges@;
            settled[position] = true;
            settle_order.push(position);
            settle_dists.push(cost);
            let pv = prev[position];
            match pv {
                Some(p) => {
                    proof {
                        assert(settled0[p as int] && graph.has_edge(p as int, position as int));
                        assert(reachable(*graph, start, p));
                        lemma_reachable_step(*graph, start, p, position);
                        assert(order0.contains(p));
                    }
                    path_edges.push((p, position));
                },
                None => {
                    proof {
                        assert(position == start);
                        lemma_reachable_refl(*graph, start);
                    }
                },
            }
            proof {
                assert forall|i2: int|
                    0 <= i2 < settle_order@.len() implies (#[trigger] settle_order@[i2]) < n
                        && settled@[settle_order@[i2] as int] by {
                    if i2 < order0.len() {
                        assert(settle_order@[i2] == order0[i2]);
                        assert(settled0[order0[i2] as int]);
                    }
                }
                assert forall|a: int, b: int|
                    0 <= a < b < settle_order@.len() implies settle_order@[a] != settle_order@[b]
                    by {
                    if b < order0.len() {
                    } else {
                        assert(settle_order@[b] == position);
                        assert(settled0[order0[a] as int]);
                    }
                }
                assert forall|v: int|
                    0 <= v < n && #[trigger] settled@[v] implies settle_order@.contains(v as usize)
                    by {
                    if v == position as int {
                        assert(settle_order@[settle_order@.len() - 1] == position);
                    } else {
                        assert(settled0[v]);
                        assert(order0.contains(v as usize));
                        let a = choose|a: int|
                            0 <= a < order0.len() && (#[trigger] order0[a]) == v as usize;
                        assert(settle_order@[a] == v as usize);
                    }
                }
                // settle order bookkeeping stays monotone
                assert forall|i2: int|
                    0 <= i2 < settle_order@.len() implies (#[trigger] settle_dists@[i2]) == dist@[
                    settle_order@[i2] as int] by {
                    if i2 < order0.len() {
                        assert(settle_dists@[i2] == dists0[i2]);
                        assert(settle_order@[i2] == order0[i2]);
                    }
                }
                assert forall|a: int, b: int|
                    0 <= a < b < settle_dists@.len() implies settle_dists@[a] <= settle_dists@[b]
                    by {
                    if b < dists0.len() {
                        assert(settle_dists@[a] == dists0[a] && settle_dists@[b] == dists0[b]);
                    } else {
                        assert(settle_dists@[b] == cost);
                        assert(!settled0[order0[a] as int] || settled0[order0[a] as int]);
                        assert(dists0[a] == dist@[order0[a] as int]);
                        assert(settle_dists@[a] == dists0[a]);
                        assert(dists0[a] <= cost) by {
                            assert(!settled0[position as int]);
                            assert(dist@[position as int] >= dists0[a]);
                        }
                    }
                }
                assert forall|i2: int, t: int|
                    #![trigger settle_dists@[i2], dist@[t]]
                    0 <= i2 < settle_dists@.len() && 0 <= t < n && !settled@[t] implies dist@[t]
                        >= settle_dists@[i2] by {
                    assert(!settled0[t] && t != position as int);
                    if i2 < dists0.len() {
                        assert(settle_dists@[i2] == dists0[i2]);
                    } else {
                        assert(settle_dists@[i2] == cost);
                    }
                }
                assert forall|i2: int| 0 <= i2 < path_edges@.len() implies {
                    let e = #[trigger] path_edges@[i2];
                    &&& e.1 == settle_order@[i2 + 1]
                    &&& graph.has_edge(e.0 as int, e.1 as int)
                    &&& exists|a: int, w: u32|
                        0 <= a <= i2 && settle_order@[a] == e.0 && graph.has_weighted_edge(
                            e.0 as int,
                            e.1 as int,
                            w,
                        ) && settle_dists@[i2 + 1] as int == settle_dists@[a] + w
                } by {
                    if i2 < edges0.len() {
                        assert(path_edges@[i2] == edges0[i2]);
                        assert(settle_order@[i2 + 1] == order0[i2 + 1]);
                        let (a, w) = choose|a: int, w: u32|
                            0 <= a <= i2 && order0[a] == edges0[i2].0 && graph.has_weighted_edge(
                                edges0[i2].0 as int,
                                edges0[i2].1 as int,
                                w,
                            ) && dists0[i2 + 1] as int == dists0[a] + w;
                        assert(settle_order@[a] == edges0[i2].0);
                        assert(settle_dists@[i2 + 1] == dists0[i2 + 1] && settle_dists@[a]
                            == dists0[a]);
                    } else {
                        let e = path_edges@[i2];
                        let p = prev@[position as int]->Some_0;
                        assert(e == (p, position));
                        assert(settle_order@[i2 + 1] == position);
                        assert(order0.contains(e.0));
                        let a = choose|a: int|
                            0 <= a < order0.len() && (#[trigger] order0[a]) == e.0;
                        assert(settle_order@[a] == e.0);
                        let w = choose|w: u32|
                            graph.has_weighted_edge(p as int, position as int, w) && dist@[position
                                as int] as int == dist@[p as int] + w;
                        assert(settle_dists@[a] == dists0[a] && dists0[a] == dist@[p as int]);
                        assert(settle_dists@[i2 + 1] as int == dist@[p as int] + w);
                    }
                }
            }
            let vl = copy_usizes(&settle_order);
            let pe = copy_pairs(&path_edges);
            let cand = edges_from_vec(graph, position);
            let expl = label_city("Visiting node ", &idx_to_city[position]);
            let ghost before = viz_steps@;
            viz_steps.push(
                VisualizationStep {
                    visited_nodes: vl,
                    current_node: Some(position),
                    edges_in_path: pe,
                    candidate_edges: cand,
                    explanation: expl,
                },
            );
            proof {
                assert(settle_order@.take(settle_order@.len() as int) =~= settle_order@);
                assert(path_edges@.take(path_edges@.len() as int) =~= path_edges@);
                assert forall|k: int| 1 <= k <= settle_order@.len() implies {
                    let st2 = #[trigger] viz_steps@[k];
                    &&& st2.current_node == Some(settle_order@[k - 1])
                    &&& st2.visited_nodes@ == settle_order@.take(k)
                    &&& st2.edges_in_path@ == path_edges@.take(k - 1)
                    &&& st2.candidate_edges@ == edges_from(*graph, settle_order@[k - 1])
                    &&& st2.explanation@ == "Visiting node "@ + idx_to_city@[settle_order@[k - 1] as int]@
                } by {
                    if k <= order0.len() {
                        assert(viz_steps@[k] == before[k]);
                        assert(settle_order@.take(k) =~= order0.take(k));
                        assert(path_edges@.take(k - 1) =~= edges0.take(k - 1));
                        assert(settle_order@[k - 1] == order0[k - 1]);
                    } else {
                        assert(viz_steps@[k] == viz_steps@[viz_steps@.len() - 1]);
                    }
                }
            }

            // relax every outgoing edge of the settled node
            let deg = graph.adj[position].len();
            let mut j: usize = 0;
            let ghost bound = pq@.len() + sum_upto(dist@, n as int);
            while j < deg
                invariant
                    graph.wf(),
                    n == graph.node_count,
                    start < n,
                    position < n,
                    deg == graph.adj@[position as int]@.len(),
                    j <= deg,
                    dist@.len() == n,
                    prev@.len() == n,
                    settled@.len() == n,
                    dist@[start as int] == 0,
                    prev@[start as int] is None,
                    settled@[position as int],
                    cost == dist@[position as int],
                    cost < u32::MAX,
                    settle_dists@.len() > 0 && settle_dists@[settle_dists@.len() - 1] == cost,
                    forall|k: int|
                        0 <= k < pq@.len() ==> ((#[trigger] pq@[k]).position < n && pq@[k].cost
                            < u32::MAX && pq@[k].cost >= dist@[pq@[k].position as int]),
                    forall|k: int|
                        0 <= k < pq@.len() && settled@[(#[trigger] pq@[k]).position as int]
                            ==> pq@[k].cost > dist@[pq@[k].position as int],
                    forall|k1: int, k2: int|
                        0 <= k1 < k2 < pq@.len() && (#[trigger] pq@[k1]).position == (
                        #[trigger] pq@[k2]).position ==> pq@[k1].cost != pq@[k2].cost,
                    forall|t: int|
                        0 <= t < n && !settled@[t] && dist@[t] < u32::MAX ==> exists|k: int|
                            0 <= k < pq@.len() && (#[trigger] pq@[k]) == (State {
                                cost: dist@[t],
                                position: t as usize,
                            }),
                    forall|v: int|
                        0 <= v < n && v != start && dist@[v] < u32::MAX ==> (
                        #[trigger] prev@[v]) is Some,
                    forall|v: int|
                        0 <= v < n ==> match #[trigger] prev@[v] {
                            Some(p) => p < n && settled@[p as int] && graph.has_edge(p as int, v)
                                && exists|w: u32|
                                graph.has_weighted_edge(p as int, v, w) && dist@[v] as int == dist@[
                                    p as int] + w,
                            None => true,
                        },
                    forall|v: int|
                        0 <= v < n && #[trigger] settled@[v] ==> reachable(*graph, start, v as usize)
                            && dist@[v] < u32::MAX,
                    forall|v: int|
                        0 <= v < n && dist@[v] < u32::MAX ==> has_dist(
                            *graph,
                            start,
                            v as usize,
                            (#[trigger] dist@[v]) as int,
                        ),
                    forall|v: int|
                        0 <= v < n && #[trigger] settled@[v] ==> dist_lb(
                            *graph,
                            start,
                            v as usize,
                            dist@[v] as int,
                        ),
                    forall|u: int, j2: int|
                        0 <= u < n && settled@[u] && u != position as int && 0 <= j2
                            < graph.adj@[u]@.len() ==> dist@[(#[trigger] graph.adj@[u]@[j2]).to
                            as int] as int <= dist@[u] + graph.adj@[u]@[j2].weight,
                    forall|j2: int|
                        0 <= j2 < j ==> dist@[(#[trigger] graph.adj@[position as int]@[j2]).to
                            as int] as int <= cost + graph.adj@[position as int]@[j2].weight,
                    settle_dists@.len() == settle_order@.len(),
                    forall|i2: int|
                        0 <= i2 < settle_order@.len() ==> (#[trigger] settle_order@[i2]) < n
                            && settled@[settle_order@[i2] as int],
                    forall|a: int, b: int|
                        0 <= a < b < settle_dists@.len() ==> settle_dists@[a] <= settle_dists@[b],
                    forall|i2: int|
                        0 <= i2 < settle_order@.len() ==> (#[trigger] settle_dists@[i2]) == dist@[
                            settle_order@[i2] as int],
                    forall|i2: int, t: int|
                        #![trigger settle_dists@[i2], dist@[t]]
                        0 <= i2 < settle_dists@.len() && 0 <= t < n && !settled@[t] ==> dist@[t]
                            >= settle_dists@[i2],
                    pq@.len() + sum_upto(dist@, n as int) <= bound,
                decreases deg - j,
            {
                let e = graph.adj[position][j];
                let nc = if e.weight <= u32::MAX - cost {
                    cost + e.weight
                } else {
                    u32::MAX
                };
                proof {
                    assert(graph.has_weighted_edge(position as int, e.to as int, e.weight)) by {
                        assert(graph.nbrs(position as int)[j as int] == (Edge {
                            to: e.to,
                            weight: e.weight,
                        }));
                    }
                    assert(graph.has_edge(position as int, e.to as int)) by {
                        assert(graph.nbrs(position as int)[j as int].to == e.to);
                    }
                    assert(e.to < n);
                }
                if !settled[e.to] && nc < dist[e.to] {
                    let ghost dist0 = dist@;
                    let ghost pqb = pq@;
                    proof {
                        lemma_sum_upto_update(dist@, e.to as int, nc, n as int);
                    }
                    dist[e.to] = nc;
                    prev[e.to] = Some(position);
                    pq.push(State { cost: nc, position: e.to });
                    proof {
                        assert(nc == cost + e.weight);
                        lemma_has_dist_step(*graph, start, position, e.to, e.weight, cost as int);
                        assert forall|k: int|
                            0 <= k < pq@.len() implies ((#[trigger] pq@[k]).position < n
                                && pq@[k].cost < u32::MAX && pq@[k].cost >= dist@[pq@[k].position
                                as int]) by {
                            if k < pq@.len() - 1 {
                                assert(dist@[pq@[k].position as int] <= dist0[pq@[k].position
                                    as int]);
                            }
                        }
                        assert forall|k1: int, k2: int|
                            0 <= k1 < k2 < pq@.len() && (#[trigger] pq@[k1]).position == (
                            #[trigger] pq@[k2]).position implies pq@[k1].cost != pq@[k2].cost by {
                            if k2 == pq@.len() - 1 {
                                if pq@[k1].position == e.to {
                                    assert(pq@[k1].cost >= dist0[e.to as int]);
                                    assert(pq@[k2].cost == nc);
                                }
                            }
                        }
                        assert forall|t: int|
                            0 <= t < n && !settled@[t] && dist@[t] < u32::MAX implies exists|k: int|
                                0 <= k < pq@.len() && (#[trigger] pq@[k]) == (State {
                                    cost: dist@[t],
                                    position: t as usize,
                                }) by {
                            if t == e.to as int {
                                assert(pq@[pq@.len() - 1] == (State {
                                    cost: dist@[t],
                                    position: t as usize,
                                }));
                            } else {
                                let w = State { cost: dist0[t], position: t as usize };
                                let k0 = choose|k0: int|
                                    0 <= k0 < pqb.len() && (#[trigger] pqb[k0]) == w;
                                assert(pq@[k0] == w);
                            }
                        }
                        assert forall|v: int|
                            0 <= v < n implies match #[trigger] prev@[v] {
                            Some(p) => p < n && settled@[p as int] && graph.has_edge(p as int, v)
                                && exists|w: u32|
                                graph.has_weighted_edge(p as int, v, w) && dist@[v] as int == dist@[
                                    p as int] + w,
                            None => true,
                        } by {
                            if v == e.to as int {
                                assert(graph.has_weighted_edge(position as int, v, e.weight)
                                    && dist@[v] as int == dist@[position as int] + e.weight);
                            } else {
                                match prev@[v] {
                                    Some(p) => {
                                        assert(p as int != e.to as int);
                                        let w = choose|w: u32|
                                            graph.has_weighted_edge(p as int, v, w) && dist0[v]
                                                as int == dist0[p as int] + w;
                                        assert(dist@[v] == dist0[v] && dist@[p as int] == dist0[p
                                            as int]);
                                    },
                                    None => {},
                                }
                            }
                        }
                        assert forall|i2: int, t: int|
                            #![trigger settle_dists@[i2], dist@[t]]
                            0 <= i2 < settle_dists@.len() && 0 <= t < n && !settled@[t] implies
                            dist@[t] >= settle_dists@[i2] by {
                            if t == e.to as int {
                                assert(dist@[t] == nc && nc >= cost);
                                assert(settle_dists@[i2] <= settle_dists@[settle_dists@.len() - 1]);
                                assert(settle_dists@[i2] <= cost);
                            }
                        }
                        assert forall|i2: int|
                            0 <= i2 < settle_order@.len() implies (#[trigger] settle_dists@[i2])
                                == dist@[settle_order@[i2] as int] by {
                            assert(settled@[settle_order@[i2] as int]);
                            assert(settle_order@[i2] as int != e.to as int);
                        }
                    }
                } else {
                    proof {
                        if settled@[e.to as int] {
                            // a settled target is already at its optimum, which the
                            // walk through the fresh node cannot beat
                            assert(has_dist(*graph, start, position, cost as int));
                            lemma_has_dist_step(
                                *graph,
                                start,
                                position,
                                e.to,
                                e.weight,
                                cost as int,
                            );
                            assert(dist_lb(*graph, start, e.to, dist@[e.to as int] as int));
                            let (p2, ws2) = choose|p2: Seq<usize>, ws2: Seq<u32>|
                                is_wpath(*graph, p2, ws2) && p2.first() == start && p2.last() == e.to
                                    && wsum(ws2) == cost + e.weight;
                            assert(wsum(ws2) >= dist@[e.to as int]);
                        } else {
                            assert(nc >= dist@[e.to as int]);
                            assert(nc as int <= cost + e.weight);
                        }
                        assert(dist@[e.to as int] as int <= cost + e.weight);
                    }
                }
                j += 1;
            }
            proof {
                lemma_sum_upto_nonneg(dist@, n as int);
                assert(pq@.len() + sum_upto(dist@, n as int) < m0);
                // the newly settled node is now fully relaxed as well
                assert forall|u: int, j2: int|
                    0 <= u < n && settled@[u] && 0 <= j2 < graph.adj@[u]@.len() implies dist@[(
                #[trigger] graph.adj@[u]@[j2]).to as int] as int <= dist@[u] + graph.adj@[u]@[j2].weight by {
                    if u == position as int {
                        assert(dist@[(graph.adj@[position as int]@[j2]).to as int] as int <= cost
                            + graph.adj@[position as int]@[j2].weight);
                    }
                }
            }
        }
    }

    proof {
        assert(settle_order@.len() > 0);
    }
    let ghost order_final = settle_order@;
    let ghost dists_final = settle_dists@;
    let ghost edges_final = path_edges@;
    let ghost before = viz_steps@;
    viz_steps.push(
        VisualizationStep {
            visited_nodes: settle_order,
            current_node: None,
            edges_in_path: path_edges,
            candidate_edges: Vec::new(),
            explanation: "Dijkstra's algorithm complete".to_owned(),
        },
    );
    proof {
        let now = viz_steps@;
        let last = now[now.len() - 1];
        assert(last.visited_nodes@ == order_final && last.edges_in_path@ == edges_final);
        assert forall|k: int| 1 <= k <= order_final.len() implies {
            let st2 = #[trigger] now[k];
            &&& st2.current_node == Some(order_final[k - 1])
            &&& st2.visited_nodes@ == order_final.take(k)
            &&& st2.edges_in_path@ == edges_final.take(k - 1)
            &&& st2.candidate_edges@ == edges_from(*graph, order_final[k - 1])
            &&& st2.explanation@ == "Visiting node "@ + idx_to_city@[order_final[k - 1] as int]@
        } by {
            assert(now[k] == before[k]);
        }
        // the recorded distances witness the shortest-path claims
        assert forall|i: int|
            0 <= i < order_final.len() implies min_dist(
            *graph,
            start,
            order_final[i],
            (#[trigger] dists_final[i]) as int,
        ) by {
            let v = order_final[i];
            assert(settled@[v as int]);
            assert(dists_final[i] == dist@[v as int]);
            assert(dist@[v as int] < u32::MAX);
            assert(has_dist(*graph, start, v, dist@[v as int] as int));
            assert(dist_lb(*graph, start, v, dist@[v as int] as int));
        }
        assert forall|i: int, j: int|
            0 <= i < order_final.len() && 0 <= j < graph.adj@[order_final[i] as int]@.len() implies
            dists_final[i] + (#[trigger] graph.adj@[order_final[i] as int]@[j]).weight >= u32::MAX
                as int || order_final.contains(graph.adj@[order_final[i] as int]@[j].to) by {
            let u = order_final[i];
            let ed = graph.adj@[u as int]@[j];
            if dists_final[i] + ed.weight < u32::MAX as int {
                assert(settled@[u as int]);
                assert(dists_final[i] == dist@[u as int]);
                assert(dist@[ed.to as int] as int <= dist@[u as int] + ed.weight);
                if !settled@[ed.to as int] {
                    assert(dist@[ed.to as int] < u32::MAX);
                    assert(false);
                }
                assert(settle_order@.contains(ed.to));
            }
        }
        assert(dists_final[0] == 0) by {
            assert(order_final[0] == start);
            assert(settle_dists@[0] == dist@[start as int]);
        }
        assert forall|i: int| 0 <= i < edges_final.len() implies #[trigger] tree_edge_realizes(
            *graph,
            order_final,
            edges_final,
            dists_final,
            i,
        ) by {
            let e = path_edges@[i];
            assert(e == edges_final[i]);
            let (a, w) = choose|a: int, w: u32|
                0 <= a <= i && settle_order@[a] == e.0 && graph.has_weighted_edge(
                    e.0 as int,
                    e.1 as int,
                    w,
                ) && settle_dists@[i + 1] as int == settle_dists@[a] + w;
            assert(0 <= a <= i && order_final[a] == edges_final[i].0 && graph.has_weighted_edge(
                edges_final[i].0 as int,
                edges_final[i].1 as int,
                w,
            ) && dists_final[i + 1] as int == dists_final[a] + w);
        }
        assert(dijkstra_dists_ok(*graph, start, order_final, edges_final, dists_final));
        assert(dijkstra_trace_ok(*graph, idx_to_city@, start, now));
    }
    Visualization { steps: viz_steps }
}

} // verus!
