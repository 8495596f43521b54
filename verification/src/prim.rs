use crate::frontier::{copy_pairs, edges_from, edges_from_vec};
use crate::graph::{Graph, Visualization, VisualizationStep};
use crate::marks::{
    count_true, false_flags, lemma_count_true_upto_bound, lemma_count_true_upto_missing,
    lemma_count_true_upto_update, lemma_count_true_upto_zero, lemma_increasing_covers,
    lemma_trues_upto, strictly_increasing, trues, visited_list,
};
use crate::reach::{
    lemma_closed_reaches, lemma_reachable_refl, lemma_reachable_step, lemma_tree_shaped_push,
    reachable, tree_shaped,
};
use crate::text::{label_city, push_decimal};
use crate::trace::{lemma_steps_monotone_push, steps_monotone};
use vstd::prelude::*;

verus! {

use crate::graph::resolve_city;
use crate::graph::spec_resolve;
use crate::text::dec_str;
use vstd::pervasive::unreached;

/// A frontier entry: a stored edge from the visited node `from` to `to`.
#[derive(Clone, Copy, PartialEq, Eq, Structural)]
struct State {
    weight: u32,
    from: usize,
    to: usize,
}

/// Total weight of the accepted edges.
pub open spec fn sum_weights(mst: Seq<(usize, usize, u32)>) -> int
    decreases mst.len(),
{
    if mst.len() == 0 {
        0
    } else {
        sum_weights(mst.drop_last()) + mst.last().2
    }
}

proof fn lemma_sum_weights_bound(mst: Seq<(usize, usize, u32)>)
    ensures
        0 <= sum_weights(mst) <= mst.len() * (u32::MAX as int),
    decreases mst.len(),
{
    if mst.len() > 0 {
        lemma_sum_weights_bound(mst.drop_last());
    }
}

/// Termination potential: every unvisited node still owes its degree plus one.
spec fn pot_upto(g: Graph, vis: Seq<bool>, k: int) -> int
    decreases k,
{
    if k <= 0 {
        0
    } else {
        pot_upto(g, vis, k - 1) + if !vis[k - 1] {
            g.adj@[k - 1]@.len() as int + 1
        } else {
            0int
        }
    }
}

proof fn lemma_pot_nonneg(g: Graph, vis: Seq<bool>, k: int)
    requires
        0 <= k <= vis.len(),
    ensures
        0 <= pot_upto(g, vis, k),
    decreases k,
{
    if k > 0 {
        lemma_pot_nonneg(g, vis, k - 1);
    }
}

proof fn lemma_pot_update(g: Graph, vis: Seq<bool>, v: int, k: int)
    requires
        0 <= v < vis.len(),
        0 <= k <= vis.len(),
        !vis[v],
    ensures
        pot_upto(g, vis.update(v, true), k) == pot_upto(g, vis, k) - if v < k {
            g.adj@[v]@.len() as int + 1
        } else {
            0int
        },
    decreases k,
{
    if k > 0 {
        lemma_pot_update(g, vis, v, k - 1);
    }
}

/// Removes and returns a lightest frontier entry, if the frontier is non-empty.
fn pop_min(pq: &mut Vec<State>) -> (r: Option<State>)
    ensures
        old(pq)@.len() == 0 ==> r is None && final(pq)@ == old(pq)@,
        old(pq)@.len() > 0 ==> match r {
            Some(s) => {
                &&& exists|i: int|
                    0 <= i < old(pq)@.len() && s == old(pq)@[i] && final(pq)@ == old(pq)@.remove(i)
                &&& forall|k: int|
                    0 <= k < old(pq)@.len() ==> s.weight <= (#[trigger] old(pq)@[k]).weight
            },
            None => false,
        },
{
    if pq.len() == 0 {
        return None;
    }
    let mut best: usize = 0;
    let mut j: usize = 1;
    while j < pq.len()
        invariant
            pq@.len() > 0,
            best < j <= pq@.len(),
            forall|k: int| 0 <= k < j ==> pq@[best as int].weight <= (#[trigger] pq@[k]).weight,
        decreases pq@.len() - j,
    {
        if pq[j].weight < pq[best].weight {
            best = j;
        }
        j += 1;
    }
    let s = pq.remove(best);
    Some(s)
}

/// The nodes the tree spans after its first `k` accepted edges: the start and
/// each of those edges' targets.
pub open spec fn prim_grown(start: usize, mst: Seq<(usize, usize, u32)>, k: int, x: usize) -> bool {
    x == start || exists|j: int| 0 <= j < k && (#[trigger] mst[j]).1 == x
}

/// The accepted edges behind a completed trace: each carries its weight, is a
/// stored graph edge, and matches the terminal committed edge list pairwise;
/// each accepted edge is a minimum-weight stored edge across the cut between
/// the nodes spanned so far and the rest (the cut property, which makes the
/// finished tree a minimum spanning tree of its component); the terminal
/// explanation reports the sum of the weights.
pub open spec fn prim_mst_ok(
    g: Graph,
    start: usize,
    mst: Seq<(usize, usize, u32)>,
    steps: Seq<VisualizationStep>,
) -> bool {
    let last = steps[steps.len() - 1];
    &&& mst.len() == last.edges_in_path@.len()
    &&& forall|i: int|
        0 <= i < mst.len() ==> (#[trigger] last.edges_in_path@[i]) == ((mst[i].0, mst[i].1))
            && g.has_weighted_edge(mst[i].0 as int, mst[i].1 as int, mst[i].2)
    &&& forall|k: int|
        0 <= k < mst.len() ==> prim_grown(start, mst, k, (#[trigger] mst[k]).0) && !prim_grown(
            start,
            mst,
            k,
            mst[k].1,
        )
    &&& forall|k: int, u: int, j: int|
        #![trigger prim_grown(start, mst, k, (g.adj@[u]@[j]).to)]
        0 <= k < mst.len() && 0 <= u < g.node_count && prim_grown(start, mst, k, u as usize) && 0
            <= j < g.adj@[u]@.len() && !prim_grown(start, mst, k, g.adj@[u]@[j].to) ==> mst[k].2
            <= g.adj@[u]@[j].weight
    &&& last.explanation@ == "Prim's algorithm complete. Total MST weight: "@ + dec_str(
        sum_weights(mst) as nat,
    )
}

/// What a completed minimum-spanning-tree trace promises.
///
/// The first step documents initialization: the start node visited and
/// current, no committed edges, all its edges candidates. Every later step
/// but the last carries a current node; committed edges only grow and visited
/// nodes are never dropped. The terminal step carries no current node and no
/// candidates; its visited list is strictly increasing, holds the start and
/// exactly one more node per committed edge, all reachable from the start;
/// the committed edges hang each newly visited node onto an earlier one
/// (tree-shaped), and the visited set has no stored edge left to an
/// unvisited node, so on a connected graph it spans all nodes. The accepted
/// weights are summed in the terminal explanation.
pub open spec fn prim_trace_ok(
    g: Graph,
    names: Seq<String>,
    start: usize,
    steps: Seq<VisualizationStep>,
) -> bool {
    let last = steps[steps.len() - 1];
    let visited = last.visited_nodes@;
    let tree = last.edges_in_path@;
    &&& steps.len() >= 2
    &&& steps[0].visited_nodes@ == seq![start]
    &&& steps[0].current_node == Some(start)
    &&& steps[0].edges_in_path@ == Seq::<(usize, usize)>::empty()
    &&& steps[0].candidate_edges@ == edges_from(g, start)
    &&& steps[0].explanation@ == "Starting Prim's algorithm from "@ + names[start as int]@
    &&& forall|k: int| 0 <= k < steps.len() - 1 ==> (#[trigger] steps[k]).current_node is Some
    &&& steps_monotone(steps)
    &&& last.current_node is None
    &&& last.candidate_edges@ == Seq::<(usize, usize)>::empty()
    &&& strictly_increasing(visited)
    &&& visited.contains(start)
    &&& forall|i: int| 0 <= i < visited.len() ==> (#[trigger] visited[i]) < g.node_count
    &&& forall|v: usize| #[trigger] visited.contains(v) ==> reachable(g, start, v)
    &&& tree.len() + 1 == visited.len()
    &&& tree_shaped(tree, start)
    &&& forall|i: int|
        0 <= i < tree.len() ==> visited.contains((#[trigger] tree[i]).0) && visited.contains(
            tree[i].1,
        )
    &&& forall|u: int, j: int|
        0 <= u < g.node_count && visited.contains(u as usize) && 0 <= j < g.adj@[u]@.len()
            ==> visited.contains((#[trigger] g.adj@[u]@[j]).to)
    &&& exists|mst: Seq<(usize, usize, u32)>| #[trigger] prim_mst_ok(g, start, mst, steps)
}

/// On a connected graph a completed run commits exactly `node_count - 1`
/// edges: the terminal visited set is closed under stored edges and holds the
/// start, so it covers every node, and each committed edge added one node.
pub proof fn lemma_prim_spans_connected(
    g: Graph,
    names: Seq<String>,
    start: usize,
    steps: Seq<VisualizationStep>,
)
    requires
        g.wf(),
        start < g.node_count,
        prim_trace_ok(g, names, start, steps),
        forall|v: usize| v < g.node_count ==> reachable(g, start, v),
    ensures
        steps[steps.len() - 1].edges_in_path@.len() + 1 == g.node_count,
{
    let last = steps[steps.len() - 1];
    let visited = last.visited_nodes@;
    let flags = Seq::new(g.node_count as nat, |v: int| visited.contains(v as usize));
    assert forall|u: int, j: int|
        0 <= u < g.node_count && flags[u] && 0 <= j < g.adj@[u]@.len() implies flags[(
    #[trigger] g.adj@[u]@[j]).to as int] by {
        assert(visited.contains(g.adj@[u]@[j].to));
    }
    lemma_closed_reaches(g, flags, start);
    assert forall|v: int| 0 <= v < g.node_count implies #[trigger] visited.contains(v as usize) by {
        assert(reachable(g, start, v as usize));
        assert(flags[v]);
    }
    lemma_increasing_covers(visited, g.node_count as int);
}

/// Lists the frontier as `(from, to)` pairs.
fn frontier_pairs(pq: &Vec<State>) -> (r: Vec<(usize, usize)>)
    ensures
        r@.len() == pq@.len(),
        forall|i: int| 0 <= i < pq@.len() ==> (#[trigger] r@[i]) == (pq@[i].from, pq@[i].to),
{
    let mut r: Vec<(usize, usize)> = Vec::new();
    let mut i: usize = 0;
    while i < pq.len()
        invariant
            i <= pq@.len(),
            r@.len() == i,
            forall|k: int| 0 <= k < i ==> (#[trigger] r@[k]) == (pq@[k].from, pq@[k].to),
        decreases pq@.len() - i,
    {
        r.push((pq[i].from, pq[i].to));
        i += 1;
    }
    r
}

/// Minimum spanning tree from the named start city by growing a visited set
/// along a minimum-weight frontier, recording one snapshot at initialization,
/// one per accepted edge, one per frontier refill, and one terminal snapshot.
/// On a disconnected graph the run stops with the frontier empty and spans
/// only the start node's component. Stale frontier entries (their target
/// already visited) are skipped silently. An unknown start name yields an
/// empty trace.
#[verifier::rlimit(100)]
#[verifier::spinoff_prover]
pub fn prim(graph: &Graph, idx_to_city: &Vec<String>, root_cityname_for_prim: &String) -> (viz:
    Visualization)
    requires
        graph.wf(),
        idx_to_city@.len() == graph.node_count,
    ensures
        spec_resolve(idx_to_city@, root_cityname_for_prim@) is None ==> viz.steps@.len() == 0,
        match spec_resolve(idx_to_city@, root_cityname_for_prim@) {
            Some(start) => prim_trace_ok(*graph, idx_to_city@, start, viz.steps@),
            None => true,
        },
{
    let start = match resolve_city(idx_to_city, root_cityname_for_prim) {
        Some(idx) => idx,
        None => {
            return Visualization { steps: Vec::new() };
        },
    };
    let n = graph.node_count;
    let mut visited = false_flags(n);
    proof {
        lemma_count_true_upto_zero(visited@, n as int);
        lemma_count_true_upto_update(visited@, start as int, n as int);
    }
    visited[start] = true;
    proof {
        lemma_reachable_refl(*graph, start);
    }
    let mut mst_edges: Vec<(usize, usize, u32)> = Vec::new();
    let mut tree_pairs: Vec<(usize, usize)> = Vec::new();
    let mut total_weight: u128 = 0;
    let mut pq: Vec<State> = Vec::new();
    let deg0 = graph.adj[start].len();
    let mut j0: usize = 0;
    while j0 < deg0
        invariant
            graph.wf(),
            n == graph.node_count,
            start < n,
            visited@.len() == n,
            visited@[start as int],
            forall|v: int| 0 <= v < n && v != start ==> !visited@[v],
            deg0 == graph.adj@[start as int]@.len(),
            j0 <= deg0,
            pq@.len() == j0,
            forall|k: int|
                0 <= k < j0 ==> (#[trigger] pq@[k]) == (State {
                    weight: graph.adj@[start as int]@[k].weight,
                    from: start,
                    to: graph.adj@[start as int]@[k].to,
                }),
        decreases deg0 - j0,
    {
        let e = graph.adj[start][j0];
        pq.push(State { weight: e.weight, from: start, to: e.to });
        j0 += 1;
    }
    let mut viz_steps: Vec<VisualizationStep> = Vec::new();
    let mut first_visited: Vec<usize> = Vec::new();
    first_visited.push(start);
    proof {
        assert(first_visited@ =~= seq![start]);
    }
    viz_steps.push(
        VisualizationStep {
            visited_nodes: first_visited,
            current_node: Some(start),
            edges_in_path: Vec::new(),
            candidate_edges: edges_from_vec(graph, start),
            explanation: label_city("Starting Prim's algorithm from ", &idx_to_city[start]),
        },
    );
    proof {
        lemma_trues_upto(visited@, n as int);
        assert forall|k: int|
            0 <= k < pq@.len() implies ((#[trigger] pq@[k]).from < n && pq@[k].to < n && visited@[
                pq@[k].from as int] && graph.has_weighted_edge(
                pq@[k].from as int,
                pq@[k].to as int,
                pq@[k].weight,
            )) by {
            assert(graph.nbrs(start as int)[k] == (crate::graph::Edge {
                to: pq@[k].to,
                weight: pq@[k].weight,
            }));
        }
        assert forall|u: int, j: int|
            0 <= u < n && visited@[u] && 0 <= j < graph.adj@[u]@.len() && !visited@[(
            #[trigger] graph.adj@[u]@[j]).to as int] implies exists|k: int|
                0 <= k < pq@.len() && (#[trigger] pq@[k]) == (State {
                    weight: graph.adj@[u]@[j].weight,
                    from: u as usize,
                    to: graph.adj@[u]@[j].to,
                }) by {
            assert(u == start as int);
            assert(pq@[j] == (State {
                weight: graph.adj@[u]@[j].weight,
                from: u as usize,
                to: graph.adj@[u]@[j].to,
            }));
        }
        assert forall|x: usize| #[trigger]
            viz_steps@[viz_steps@.len() - 1].visited_nodes@.contains(x) implies x < n && visited@[x
            as int] by {
            assert(viz_steps@[viz_steps@.len() - 1].visited_nodes@ == seq![start]);
            assert(x == start);
        }
        assert forall|x: usize| x < n && visited@[x as int] implies #[trigger]
            viz_steps@[viz_steps@.len() - 1].visited_nodes@.contains(x) by {
            assert(x == start);
            assert(viz_steps@[viz_steps@.len() - 1].visited_nodes@[0] == start);
        }
        assert forall|x: usize|
            #![trigger prim_grown(start, mst_edges@, mst_edges@.len() as int, x)]
            x < n implies (visited@[x as int] <==> prim_grown(
            start,
            mst_edges@,
            mst_edges@.len() as int,
            x,
        )) by {
            if prim_grown(start, mst_edges@, 0, x) && x != start {
                let j2 = choose|j2: int| 0 <= j2 < 0 && (#[trigger] mst_edges@[j2]).1 == x;
                assert(false);
            }
        }
    }

    while pq.len() > 0 && mst_edges.len() + 1 < n
        invariant
            graph.wf(),
            idx_to_city@.len() == graph.node_count,
            n == graph.node_count,
            start < n,
            visited@.len() == n,
            visited@[start as int],
            mst_edges@.len() + 1 == count_true(visited@),
            mst_edges@.len() + 1 <= n,
            tree_pairs@.len() == mst_edges@.len(),
            forall|i: int|
                0 <= i < mst_edges@.len() ==> (#[trigger] tree_pairs@[i]) == ((
                    mst_edges@[i].0,
                    mst_edges@[i].1,
                )),
            forall|i: int|
                0 <= i < mst_edges@.len() ==> graph.has_weighted_edge(
                    (#[trigger] mst_edges@[i]).0 as int,
                    mst_edges@[i].1 as int,
                    mst_edges@[i].2,
                ) && mst_edges@[i].0 < n && mst_edges@[i].1 < n && visited@[mst_edges@[i].0 as int]
                    && visited@[mst_edges@[i].1 as int],
            tree_shaped(tree_pairs@, start),
            forall|v: int|
                0 <= v < n && #[trigger] visited@[v] && v != start ==> exists|i: int|
                    0 <= i < tree_pairs@.len() && (#[trigger] tree_pairs@[i]).1 as int == v,
            forall|v: int|
                0 <= v < n && #[trigger] visited@[v] ==> reachable(*graph, start, v as usize),
            forall|x: usize|
                #![trigger prim_grown(start, mst_edges@, mst_edges@.len() as int, x)]
                x < n ==> (visited@[x as int] <==> prim_grown(
                    start,
                    mst_edges@,
                    mst_edges@.len() as int,
                    x,
                )),
            forall|k: int|
                0 <= k < mst_edges@.len() ==> prim_grown(
                    start,
                    mst_edges@,
                    k,
                    (#[trigger] mst_edges@[k]).0,
                ) && !prim_grown(start, mst_edges@, k, mst_edges@[k].1),
            forall|k: int, u: int, j: int|
                #![trigger prim_grown(start, mst_edges@, k, (graph.adj@[u]@[j]).to)]
                0 <= k < mst_edges@.len() && 0 <= u < n && prim_grown(
                    start,
                    mst_edges@,
                    k,
                    u as usize,
                ) && 0 <= j < graph.adj@[u]@.len() && !prim_grown(
                    start,
                    mst_edges@,
                    k,
                    graph.adj@[u]@[j].to,
                ) ==> mst_edges@[k].2 <= graph.adj@[u]@[j].weight,
            total_weight as int == sum_weights(mst_edges@),
            forall|k: int|
                0 <= k < pq@.len() ==> ((#[trigger] pq@[k]).from < n && pq@[k].to < n && visited@[
                    pq@[k].from as int] && graph.has_weighted_edge(
                    pq@[k].from as int,
                    pq@[k].to as int,
                    pq@[k].weight,
                )),
            mst_edges@.len() + 1 == n || (forall|u: int, j: int|
                0 <= u < n && visited@[u] && 0 <= j < graph.adj@[u]@.len() && !visited@[(
                #[trigger] graph.adj@[u]@[j]).to as int] ==> exists|k: int|
                    0 <= k < pq@.len() && (#[trigger] pq@[k]) == (State {
                        weight: graph.adj@[u]@[j].weight,
                        from: u as usize,
                        to: graph.adj@[u]@[j].to,
                    })),
            viz_steps@.len() >= 1,
            viz_steps@[0].visited_nodes@ == seq![start],
            viz_steps@[0].current_node == Some(start),
            viz_steps@[0].edges_in_path@ == Seq::<(usize, usize)>::empty(),
            viz_steps@[0].candidate_edges@ == edges_from(*graph, start),
            viz_steps@[0].explanation@ == "Starting Prim's algorithm from "@ + idx_to_city@[start as int]@,
            forall|k: int|
                0 <= k < viz_steps@.len() ==> (#[trigger] viz_steps@[k]).current_node is Some,
            steps_monotone(viz_steps@),
            viz_steps@[viz_steps@.len() - 1].edges_in_path@ == tree_pairs@,
            forall|x: usize| #[trigger]
                viz_steps@[viz_steps@.len() - 1].visited_nodes@.contains(x) <==> x < n
                    && visited@[x as int],
        decreases pq@.len() + pot_upto(*graph, visited@, n as int),
    {
        let ghost m0 = pq@.len() + pot_upto(*graph, visited@, n as int);
        let ghost pq0 = pq@;
        let ghost vis0 = visited@;
        let st = match pop_min(&mut pq) {
            Some(s) => s,
            None => unreached(),
        };
        let weight = st.weight;
        let from = st.from;
        let to = st.to;
        let ghost i0 = choose|i0: int|
            0 <= i0 < pq0.len() && st == pq0[i0] && pq@ == pq0.remove(i0);
        proof {
            assert(pq@ == pq0.remove(i0));
            assert forall|k: int| 0 <= k < pq@.len() implies pq@[k] == pq0[if k < i0 {
                k
            } else {
                k + 1
            }] by {
                assert(pq@ == pq0.remove(i0));
            }
            lemma_pot_nonneg(*graph, visited@, n as int);
        }

        if visited[to] {
            // stale entry: its target was reached through a lighter edge
            proof {
                assert forall|u: int, j: int|
                    0 <= u < n && visited@[u] && 0 <= j < graph.adj@[u]@.len() && !visited@[(
                    #[trigger] graph.adj@[u]@[j]).to as int] implies exists|k: int|
                        0 <= k < pq@.len() && (#[trigger] pq@[k]) == (State {
                            weight: graph.adj@[u]@[j].weight,
                            from: u as usize,
                            to: graph.adj@[u]@[j].to,
                        }) by {
                    let w = State {
                        weight: graph.adj@[u]@[j].weight,
                        from: u as usize,
                        to: graph.adj@[u]@[j].to,
                    };
                    let k0 = choose|k0: int| 0 <= k0 < pq0.len() && (#[trigger] pq0[k0]) == w;
                    assert(k0 != i0);
                    if k0 < i0 {
                        assert(pq@[k0] == w);
                    } else {
                        assert(pq@[k0 - 1] == w);
                    }
                }
            }
        } else {
            proof {
                lemma_count_true_upto_update(vis0, to as int, n as int);
                lemma_count_true_upto_bound(vis0, n as int);
                lemma_pot_update(*graph, vis0, to as int, n as int);
            }
            visited[to] = true;
            proof {
                assert(visited@[from as int]);
                assert(reachable(*graph, start, from));
                assert(graph.has_weighted_edge(from as int, to as int, weight));
                let jw = choose|jw: int|
                    0 <= jw < graph.nbrs(from as int).len() && (#[trigger] graph.nbrs(
                        from as int,
                    )[jw]) == (crate::graph::Edge { to, weight }) && to as int == graph.nbrs(
                        from as int,
                    )[jw].to as int;
                assert(graph.has_edge(from as int, to as int));
                lemma_reachable_step(*graph, start, from, to);
                // the new edge hangs a fresh node onto the tree
                assert(to != start);
                if from != start {
                    assert(exists|i: int|
                        0 <= i < tree_pairs@.len() && (#[trigger] tree_pairs@[i]).1 as int
                            == from as int);
                }
                assert forall|i: int| 0 <= i < tree_pairs@.len() implies (
                #[trigger] tree_pairs@[i]).1 != to by {
                    assert(vis0[tree_pairs@[i].1 as int]);
                }
                lemma_tree_shaped_push(tree_pairs@, start, (from, to));
                lemma_sum_weights_bound(mst_edges@);
            }
            proof {
                assert forall|k: int|
                    0 <= k < pq@.len() implies ((#[trigger] pq@[k]).from < n && pq@[k].to < n
                        && visited@[pq@[k].from as int] && graph.has_weighted_edge(
                        pq@[k].from as int,
                        pq@[k].to as int,
                        pq@[k].weight,
                    )) by {
                    let kk: int = if k < i0 { k } else { k + 1 };
                    assert(pq@[k] == pq0[kk]);
                    assert(vis0[pq0[kk].from as int]);
                }
                assert forall|u: int, j2: int|
                    0 <= u < n && visited@[u] && 0 <= j2 < graph.adj@[u]@.len() && !visited@[(
                    #[trigger] graph.adj@[u]@[j2]).to as int] && u != to as int implies exists|
                    k: int,
                |
                    0 <= k < pq@.len() && (#[trigger] pq@[k]) == (State {
                        weight: graph.adj@[u]@[j2].weight,
                        from: u as usize,
                        to: graph.adj@[u]@[j2].to,
                    }) by {
                    let w = State {
                        weight: graph.adj@[u]@[j2].weight,
                        from: u as usize,
                        to: graph.adj@[u]@[j2].to,
                    };
                    assert(vis0[u]);
                    assert(!vis0[graph.adj@[u]@[j2].to as int]);
                    let k0 = choose|k0: int| 0 <= k0 < pq0.len() && (#[trigger] pq0[k0]) == w;
                    assert(pq0[i0].to == to);
                    assert(k0 != i0);
                    if k0 < i0 {
                        assert(pq@[k0] == w);
                    } else {
                        assert(pq@[k0 - 1] == w);
                    }
                }
            }
            let ghost mst0 = mst_edges@;
            let ghost pairs0 = tree_pairs@;
            mst_edges.push((from, to, weight));
            tree_pairs.push((from, to));
            total_weight = total_weight + (weight as u128);
            proof {
                assert(mst_edges@.drop_last() =~= mst0);
                assert(mst_edges@.last() == (from, to, weight));
                assert forall|v2: int|
                    0 <= v2 < n && #[trigger] visited@[v2] && v2 != start implies exists|i: int|
                    0 <= i < tree_pairs@.len() && (#[trigger] tree_pairs@[i]).1 as int == v2 by {
                    if v2 == to as int {
                        assert(tree_pairs@[tree_pairs@.len() - 1].1 as int == v2);
                    } else {
                        assert(vis0[v2]);
                        let i = choose|i: int|
                            0 <= i < pairs0.len() && (#[trigger] pairs0[i]).1 as int == v2;
                        assert(tree_pairs@[i].1 as int == v2);
                    }
                }
            }
            proof {
                let mstn = mst_edges@;
                let len0 = mst0.len() as int;
                // what a shared prefix spans is unchanged by the new edge
                assert forall|k: int, x: usize|
                    #![trigger prim_grown(start, mstn, k, x)]
                    #![trigger prim_grown(start, mst0, k, x)]
                    0 <= k <= len0 implies (prim_grown(start, mstn, k, x) <==> prim_grown(
                    start,
                    mst0,
                    k,
                    x,
                )) by {
                    if x != start {
                        if prim_grown(start, mstn, k, x) {
                            let j2 = choose|j2: int| 0 <= j2 < k && (#[trigger] mstn[j2]).1 == x;
                            assert(mst0[j2].1 == x);
                        }
                        if prim_grown(start, mst0, k, x) {
                            let j2 = choose|j2: int| 0 <= j2 < k && (#[trigger] mst0[j2]).1 == x;
                            assert(mstn[j2].1 == x);
                        }
                    }
                }
                // the accepted edge crosses the cut of the first len0 edges
                assert(prim_grown(start, mstn, len0, from)) by {
                    assert(vis0[from as int]);
                    assert(prim_grown(start, mst0, len0, from));
                }
                assert(!prim_grown(start, mstn, len0, to)) by {
                    assert(!vis0[to as int]);
                    assert(!prim_grown(start, mst0, len0, to));
                }
                // the new edge's target extends the spanned set
                assert forall|x: usize|
                    #![trigger prim_grown(start, mstn, mstn.len() as int, x)]
                    x < n implies (visited@[x as int] <==> prim_grown(
                    start,
                    mstn,
                    mstn.len() as int,
                    x,
                )) by {
                    if x == to {
                        assert(mstn[len0].1 == x);
                        assert(visited@[x as int]);
                    } else {
                        if visited@[x as int] {
                            assert(vis0[x as int]);
                            assert(prim_grown(start, mst0, len0, x));
                            assert(prim_grown(start, mstn, len0, x));
                            if x != start {
                                let j2 = choose|j2: int|
                                    0 <= j2 < len0 && (#[trigger] mstn[j2]).1 == x;
                                assert(prim_grown(start, mstn, mstn.len() as int, x));
                            }
                        }
                        if prim_grown(start, mstn, mstn.len() as int, x) && x != start {
                            let j2 = choose|j2: int|
                                0 <= j2 < mstn.len() && (#[trigger] mstn[j2]).1 == x;
                            assert(j2 < len0);
                            assert(prim_grown(start, mst0, len0, x));
                            assert(vis0[x as int]);
                        }
                    }
                }
                // each accepted edge, the new one included, is a lightest edge
                // across its cut: the frontier held every crossing edge, and the
                // accepted entry was a minimum of the frontier
                assert forall|k: int, u: int, j: int|
                    #![trigger prim_grown(start, mstn, k, (graph.adj@[u]@[j]).to)]
                    0 <= k < mstn.len() && 0 <= u < n && prim_grown(start, mstn, k, u as usize) && 0
                        <= j < graph.adj@[u]@.len() && !prim_grown(
                    start,
                    mstn,
                    k,
                    graph.adj@[u]@[j].to,
                ) implies mstn[k].2 <= graph.adj@[u]@[j].weight by {
                    let t = graph.adj@[u]@[j].to;
                    if k < len0 {
                        assert(prim_grown(start, mst0, k, u as usize));
                        assert(!prim_grown(start, mst0, k, t));
                        assert(mst0[k].2 <= graph.adj@[u]@[j].weight);
                        assert(mstn[k] == mst0[k]);
                    } else {
                        assert(prim_grown(start, mstn, len0, u as usize));
                        assert(vis0[u]);
                        assert(!vis0[t as int]);
                        assert(exists|k0: int|
                            0 <= k0 < pq0.len() && (#[trigger] pq0[k0]) == (State {
                                weight: graph.adj@[u]@[j].weight,
                                from: u as usize,
                                to: graph.adj@[u]@[j].to,
                            }));
                        let k0 = choose|k0: int|
                            0 <= k0 < pq0.len() && (#[trigger] pq0[k0]) == (State {
                                weight: graph.adj@[u]@[j].weight,
                                from: u as usize,
                                to: graph.adj@[u]@[j].to,
                            });
                        assert(st.weight <= pq0[k0].weight);
                        assert(mstn[k].2 == weight);
                    }
                }
                assert forall|k: int|
                    0 <= k < mstn.len() implies prim_grown(start, mstn, k, (#[trigger] mstn[k]).0)
                        && !prim_grown(start, mstn, k, mstn[k].1) by {
                    if k < len0 {
                        assert(prim_grown(start, mst0, k, mst0[k].0));
                        assert(!prim_grown(start, mst0, k, mst0[k].1));
                        assert(mstn[k] == mst0[k]);
                    }
                }
            }
            // record the accepted edge
            let vl = visited_list(&visited);
            proof {
                lemma_trues_upto(visited@, n as int);
            }
            let cand = frontier_pairs(&pq);
            let mut expl = "Adding edge (".to_owned();
            expl.append(idx_to_city[from].as_str());
            expl.append(", ");
            expl.append(idx_to_city[to].as_str());
            expl.append(") with weight ");
            push_decimal(&mut expl, weight as u128);
            expl.append(" to MST");
            let ghost before = viz_steps@;
            viz_steps.push(
                VisualizationStep {
                    visited_nodes: vl,
                    current_node: Some(to),
                    edges_in_path: copy_pairs(&tree_pairs),
                    candidate_edges: cand,
                    explanation: expl,
                },
            );
            proof {
                let snew = viz_steps@[viz_steps@.len() - 1];
                assert(viz_steps@ == before.push(snew));
                assert(before[before.len() - 1].edges_in_path@ == pairs0);
                assert(pairs0.is_prefix_of(tree_pairs@)) by {
                    assert(pairs0 =~= tree_pairs@.subrange(0, pairs0.len() as int));
                }
                assert forall|x: usize| #[trigger]
                    before[before.len() - 1].visited_nodes@.contains(x) implies
                    snew.visited_nodes@.contains(x) by {
                    assert(x < n && vis0[x as int]);
                    assert(visited@[x as int]);
                }
                lemma_steps_monotone_push(before, snew);
            }

            // refill the frontier from the newly visited node, unless done
            if mst_edges.len() + 1 < n {
                let deg = graph.adj[to].len();
                let mut j: usize = 0;
                let ghost pq1 = pq@;
                while j < deg
                    invariant
                        graph.wf(),
                        n == graph.node_count,
                        start < n,
                        to < n,
                        visited@.len() == n,
                        visited@[to as int],
                        deg == graph.adj@[to as int]@.len(),
                        j <= deg,
                        pq@.len() <= pq1.len() + j,
                        forall|k: int|
                            0 <= k < pq@.len() ==> ((#[trigger] pq@[k]).from < n && pq@[k].to < n
                                && visited@[pq@[k].from as int] && graph.has_weighted_edge(
                                pq@[k].from as int,
                                pq@[k].to as int,
                                pq@[k].weight,
                            )),
                        forall|u: int, j2: int|
                            0 <= u < n && visited@[u] && 0 <= j2 < graph.adj@[u]@.len()
                                && !visited@[(#[trigger] graph.adj@[u]@[j2]).to as int] && (u
                                != to as int || j2 < j) ==> exists|k: int|
                                0 <= k < pq@.len() && (#[trigger] pq@[k]) == (State {
                                    weight: graph.adj@[u]@[j2].weight,
                                    from: u as usize,
                                    to: graph.adj@[u]@[j2].to,
                                }),
                    decreases deg - j,
                {
                    let ghost pq_before = pq@;
                    let e = graph.adj[to][j];
                    if !visited[e.to] {
                        pq.push(State { weight: e.weight, from: to, to: e.to });
                        proof {
                            assert(graph.has_weighted_edge(to as int, e.to as int, e.weight)) by {
                                assert(graph.nbrs(to as int)[j as int] == (crate::graph::Edge {
                                    to: e.to,
                                    weight: e.weight,
                                }));
                            }
                        }
                    }
                    proof {
                        assert forall|u: int, j2: int|
                            0 <= u < n && visited@[u] && 0 <= j2 < graph.adj@[u]@.len()
                                && !visited@[(#[trigger] graph.adj@[u]@[j2]).to as int] && (u
                                != to as int || j2 < j + 1) implies exists|k: int|
                                0 <= k < pq@.len() && (#[trigger] pq@[k]) == (State {
                                    weight: graph.adj@[u]@[j2].weight,
                                    from: u as usize,
                                    to: graph.adj@[u]@[j2].to,
                                }) by {
                            if u == to as int && j2 == j as int {
                                assert(!visited@[e.to as int]);
                                assert(pq@[pq@.len() - 1] == (State {
                                    weight: e.weight,
                                    from: to,
                                    to: e.to,
                                }));
                            } else {
                                let w = State {
                                    weight: graph.adj@[u]@[j2].weight,
                                    from: u as usize,
                                    to: graph.adj@[u]@[j2].to,
                                };
                                let k0 = choose|k0: int|
                                    0 <= k0 < pq_before.len() && (#[trigger] pq_before[k0]) == w;
                                assert(pq@[k0] == w);
                            }
                        }
                    }
                    j += 1;
                }
                // record the refilled frontier
                let vl2 = visited_list(&visited);
                proof {
                    lemma_trues_upto(visited@, n as int);
                }
                let cand2 = frontier_pairs(&pq);
                let expl2 = label_city("Updating candidate edges from ", &idx_to_city[to]);
                let ghost before2 = viz_steps@;
                viz_steps.push(
                    VisualizationStep {
                        visited_nodes: vl2,
                        current_node: Some(to),
                        edges_in_path: copy_pairs(&tree_pairs),
                        candidate_edges: cand2,
                        explanation: expl2,
                    },
                );
                proof {
                    let snew = viz_steps@[viz_steps@.len() - 1];
                    assert(viz_steps@ == before2.push(snew));
                    assert(before2[before2.len() - 1].edges_in_path@ == tree_pairs@);
                    assert(tree_pairs@.is_prefix_of(tree_pairs@)) by {
                        assert(tree_pairs@ =~= tree_pairs@.subrange(0, tree_pairs@.len() as int));
                    }
                    assert forall|x: usize| #[trigger]
                        before2[before2.len() - 1].visited_nodes@.contains(x) implies
                        snew.visited_nodes@.contains(x) by {
                        assert(x < n && visited@[x as int]);
                    }
                    lemma_steps_monotone_push(before2, snew);
                }
            }
            proof {
                lemma_pot_nonneg(*graph, visited@, n as int);
                assert(pq@.len() + pot_upto(*graph, visited@, n as int) < m0);
            }
        }
    }

    // the run is complete: either the tree spans every node or the frontier
    // emptied with the start node's component fully visited
    let terminal_visited = visited_list(&visited);
    proof {
        lemma_trues_upto(visited@, n as int);
        if mst_edges@.len() + 1 == n {
            assert forall|v: int| 0 <= v < n implies visited@[v] by {
                if !visited@[v] {
                    lemma_count_true_upto_missing(visited@, v, n as int);
                }
            }
        }
        assert forall|u: int, j: int|
            0 <= u < n && trues(visited@).contains(u as usize) && 0 <= j
                < graph.adj@[u]@.len() implies trues(visited@).contains(
            (#[trigger] graph.adj@[u]@[j]).to) by {
            assert(visited@[u]);
            if !visited@[graph.adj@[u]@[j].to as int] {
                assert(mst_edges@.len() + 1 != n);
                assert(exists|k: int|
                    0 <= k < pq@.len() && (#[trigger] pq@[k]) == (State {
                        weight: graph.adj@[u]@[j].weight,
                        from: u as usize,
                        to: graph.adj@[u]@[j].to,
                    }));
                assert(pq@.len() > 0);
                assert(false);
            }
            assert(visited@[graph.adj@[u]@[j].to as int]);
        }
    }
    let mut expl_done = "Prim's algorithm complete. Total MST weight: ".to_owned();
    push_decimal(&mut expl_done, total_weight);
    let ghost mst_final = mst_edges@;
    let ghost before = viz_steps@;
    viz_steps.push(
        VisualizationStep {
            visited_nodes: terminal_visited,
            current_node: None,
            edges_in_path: tree_pairs,
            candidate_edges: Vec::new(),
            explanation: expl_done,
        },
    );
    proof {
        let now = viz_steps@;
        let snew = now[now.len() - 1];
        let last = snew;
        assert(now == before.push(snew));
        assert(before[before.len() - 1].edges_in_path@ == last.edges_in_path@);
        assert(last.edges_in_path@.is_prefix_of(last.edges_in_path@)) by {
            assert(last.edges_in_path@ =~= last.edges_in_path@.subrange(
                0,
                last.edges_in_path@.len() as int,
            ));
        }
        assert forall|x: usize| #[trigger]
            before[before.len() - 1].visited_nodes@.contains(x) implies
            snew.visited_nodes@.contains(x) by {
            assert(x < n && visited@[x as int]);
        }
        lemma_steps_monotone_push(before, snew);
        assert forall|v: usize| #[trigger]
            last.visited_nodes@.contains(v) implies reachable(*graph, start, v) by {
            assert(v < n && visited@[v as int]);
        }
        assert forall|i: int|
            0 <= i < last.edges_in_path@.len() implies last.visited_nodes@.contains(
            (#[trigger] last.edges_in_path@[i]).0,
        ) && last.visited_nodes@.contains(last.edges_in_path@[i].1) by {
            assert(visited@[mst_final[i].0 as int] && visited@[mst_final[i].1 as int]);
        }
        assert(last.visited_nodes@.contains(start));
        assert(prim_mst_ok(*graph, start, mst_final, now));
        assert(prim_trace_ok(*graph, idx_to_city@, start, now));
    }
    Visualization { steps: viz_steps }
}

} // verus!
