use crate::frontier::{copy_pairs, edges_from, edges_from_vec, unvisited_from, unvisited_from_vec};
use crate::graph::{Graph, Visualization, VisualizationStep};
use crate::marks::{
    count_true, false_flags, lemma_count_true_upto_bound, lemma_count_true_upto_missing,
    lemma_count_true_upto_update, lemma_count_true_upto_zero, lemma_trues_upto, no_parents,
    strictly_increasing, trues, visited_list,
};
use crate::reach::{
    lemma_closed_reaches, lemma_reachable_refl, lemma_reachable_step, lemma_tree_shaped_push,
    reachable, tree_shaped,
};
use crate::text::label_city;
use crate::trace::{lemma_steps_monotone_push, steps_monotone};
use vstd::prelude::*;

verus! {

use crate::graph::Edge;
use crate::graph::resolve_city;
use crate::graph::spec_resolve;

/// The visited flags that a snapshot's visited list denotes.
pub open spec fn flags_of(visited: Seq<usize>, n: nat) -> Seq<bool> {
    Seq::new(n, |v: int| visited.contains(v as usize))
}

/// A snapshot that marks one new node `u` visited: the visited list gains
/// exactly `u`; unless `u` is the start, one tree edge from an already
/// visited node onto `u` is committed; the candidates are exactly `u`'s edges
/// to nodes still unvisited, in adjacency-list order.
#[verifier::opaque]
pub open spec fn visit_step_ok(
    g: Graph,
    names: Seq<String>,
    start: usize,
    prev: VisualizationStep,
    st: VisualizationStep,
) -> bool {
    let u = st.current_node->Some_0;
    &&& st.current_node is Some
    &&& u < g.node_count
    &&& !prev.visited_nodes@.contains(u)
    &&& forall|x: usize|
        #[trigger] st.visited_nodes@.contains(x) <==> prev.visited_nodes@.contains(x) || x == u
    &&& strictly_increasing(st.visited_nodes@)
    &&& if u == start {
        st.edges_in_path@ == prev.edges_in_path@
    } else {
        exists|p: usize|
            #[trigger] prev.visited_nodes@.contains(p) && st.edges_in_path@
                == prev.edges_in_path@.push((p, u))
    }
    &&& st.candidate_edges@ == unvisited_from(
        g,
        u,
        flags_of(st.visited_nodes@, g.node_count as nat),
    )
    &&& st.explanation@ == "Visiting node "@ + names[u as int]@
}

/// A snapshot that returns to an already visited node `t` after a pop: the
/// visited list and the committed edges are unchanged; the candidates are
/// exactly `t`'s edges to nodes still unvisited, in adjacency-list order.
#[verifier::opaque]
pub open spec fn backtrack_step_ok(
    g: Graph,
    names: Seq<String>,
    prev: VisualizationStep,
    st: VisualizationStep,
) -> bool {
    let t = st.current_node->Some_0;
    &&& st.current_node is Some
    &&& t < g.node_count
    &&& st.visited_nodes@ == prev.visited_nodes@
    &&& st.visited_nodes@.contains(t)
    &&& st.edges_in_path@ == prev.edges_in_path@
    &&& st.candidate_edges@ == unvisited_from(
        g,
        t,
        flags_of(st.visited_nodes@, g.node_count as nat),
    )
    &&& st.explanation@ == "Backtracking to "@ + names[t as int]@
}

/// What a completed depth-first trace promises.
///
/// The first step documents initialization: nothing visited, the start node
/// current, all its edges candidates. The second step visits the start. Every
/// later step but the last is a visiting or a backtracking snapshot with
/// pinned contents; committed edges only grow and visited nodes are never
/// dropped; every snapshot's visited list is duplicate-free ascending and its
/// committed edges form a tree over it. The traversal always descends into
/// the current node's first unvisited neighbor in adjacency-list order (the
/// documented convention): while the current node's scan finds one, the next
/// snapshot visits exactly that neighbor over exactly that edge; once it
/// finds none, the next snapshot backtracks or the trace ends. At most one
/// initial step, one visit per node, one backtrack per finished node and one
/// terminal step are recorded. The terminal step carries no current node and
/// no candidates, its visited set is exactly the set of nodes reachable from
/// the start, and its committed edges form a spanning tree of that set rooted
/// at the start.
pub open spec fn dfs_trace_ok(
    g: Graph,
    names: Seq<String>,
    start: usize,
    steps: Seq<VisualizationStep>,
) -> bool {
    let last = steps[steps.len() - 1];
    &&& steps.len() >= 2
    &&& steps[0].visited_nodes@ == Seq::<usize>::empty()
    &&& steps[0].current_node == Some(start)
    &&& steps[0].edges_in_path@ == Seq::<(usize, usize)>::empty()
    &&& steps[0].candidate_edges@ == edges_from(g, start)
    &&& steps[0].explanation@ == "Starting DFS from "@ + names[start as int]@
    &&& forall|k: int| 0 <= k < steps.len() - 1 ==> (#[trigger] steps[k]).current_node is Some
    &&& steps_monotone(steps)
    &&& steps.len() <= 2 * g.node_count + 1
    &&& steps[1].current_node == Some(start)
    &&& visit_step_ok(g, names, start, steps[0], steps[1])
    &&& forall|k: int|
        1 <= k < steps.len() - 1 ==> visit_step_ok(g, names, start, steps[k - 1], #[trigger] steps[k])
            || backtrack_step_ok(g, names, steps[k - 1], steps[k])
    &&& forall|k: int|
        0 <= k < steps.len() ==> strictly_increasing((#[trigger] steps[k]).visited_nodes@)
            && tree_shaped(steps[k].edges_in_path@, start) && ((steps[k].visited_nodes@.len() == 0
            && steps[k].edges_in_path@.len() == 0) || steps[k].edges_in_path@.len() + 1
            == steps[k].visited_nodes@.len())
    &&& forall|k: int|
        1 <= k < steps.len() - 1 ==> {
            let c = (#[trigger] steps[k]).current_node->Some_0;
            match first_unvis(
                g.adj@[c as int]@,
                flags_of(steps[k].visited_nodes@, g.node_count as nat),
                0,
            ) {
                Some(v) => k + 1 < steps.len() - 1 && steps[k + 1].current_node == Some(v)
                    && steps[k + 1].edges_in_path@ == steps[k].edges_in_path@.push((c, v)),
                None => k + 1 == steps.len() - 1 || backtrack_step_ok(
                    g,
                    names,
                    steps[k],
                    steps[k + 1],
                ),
            }
        }
    &&& last.current_node is None
    &&& last.candidate_edges@ == Seq::<(usize, usize)>::empty()
    &&& last.explanation@ == "DFS traversal complete"@
    &&& forall|v: usize|
        #![trigger last.visited_nodes@.contains(v)]
        #![trigger reachable(g, start, v)]
        last.visited_nodes@.contains(v) <==> reachable(g, start, v)
    &&& strictly_increasing(last.visited_nodes@)
    &&& last.edges_in_path@.len() + 1 == last.visited_nodes@.len()
    &&& tree_shaped(last.edges_in_path@, start)
    &&& forall|i: int|
        0 <= i < last.edges_in_path@.len() ==> g.has_edge(
            (#[trigger] last.edges_in_path@[i]).0 as int,
            last.edges_in_path@[i].1 as int,
        ) && last.visited_nodes@.contains(last.edges_in_path@[i].0)
            && last.visited_nodes@.contains(last.edges_in_path@[i].1)
    &&& forall|v: usize|
        #[trigger] last.visited_nodes@.contains(v) && v != start ==> exists|i: int|
            0 <= i < last.edges_in_path@.len() && (#[trigger] last.edges_in_path@[i]).1 == v
}

/// Termination measure for the traversal loop: visiting costs three, the
/// freshly pushed (still unvisited) top of the stack refunds two, so every
/// iteration (visit, descend, or pop) strictly lowers the measure.
pub open spec fn dfs_measure(vis: Seq<bool>, stack: Seq<usize>) -> int {
    3 * (vis.len() - count_true(vis)) + stack.len() - (if stack.len() > 0 && !vis[stack[stack.len()
        - 1] as int] {
        2int
    } else {
        0int
    })
}

/// The target of the first adjacency entry of `u` (scanning from `k`) whose
/// target is not yet visited, if any.
pub open spec fn first_unvis(adj: Seq<Edge>, vis: Seq<bool>, k: int) -> Option<usize>
    decreases adj.len() - k,
{
    if k < 0 || k >= adj.len() {
        None
    } else if !vis[adj[k].to as int] {
        Some(adj[k].to)
    } else {
        first_unvis(adj, vis, k + 1)
    }
}

/// A snapshot listing the set flags denotes exactly those flags.
proof fn lemma_flags_of_trues(vis: Seq<bool>, n: nat)
    requires
        vis.len() == n,
        n <= usize::MAX,
    ensures
        flags_of(trues(vis), n) == vis,
{
    lemma_trues_upto(vis, vis.len() as int);
    assert forall|v: int| 0 <= v < n implies flags_of(trues(vis), n)[v] == vis[v] by {
        if trues(vis).contains(v as usize) {
            assert(vis[v]);
        }
        if vis[v] {
            assert(trues(vis).contains(v as usize));
        }
    }
    assert(flags_of(trues(vis), n) =~= vis);
}

/// The visited nodes that are off the stack have no unvisited neighbor left.
pub open spec fn dfs_closed(g: Graph, vis: Seq<bool>, stack: Seq<usize>) -> bool {
    forall|v: int, j: int|
        0 <= v < g.node_count && vis[v] && !stack.contains(v as usize) && 0 <= j
            < g.adj@[v]@.len() ==> vis[(#[trigger] g.adj@[v]@[j]).to as int]
}

/// Descending into a fresh node keeps every off-stack visited node exhausted:
/// the stack only grows, and the only newly visited node is the stack's top.
proof fn lemma_closed_after_descend(
    g: Graph,
    vis0: Seq<bool>,
    vis1: Seq<bool>,
    stack0: Seq<usize>,
    u: usize,
    v: usize,
)
    requires
        g.wf(),
        dfs_closed(g, vis0, stack0),
        vis0.len() == g.node_count,
        u < g.node_count,
        vis1 == vis0 || vis1 == vis0.update(u as int, true),
        stack0.len() > 0,
        stack0[stack0.len() - 1] == u,
    ensures
        dfs_closed(g, vis1, stack0.push(v)),
{
    let stack1 = stack0.push(v);
    assert forall|w: int, j: int|
        0 <= w < g.node_count && vis1[w] && !stack1.contains(w as usize) && 0 <= j
            < g.adj@[w]@.len() implies vis1[(#[trigger] g.adj@[w]@[j]).to as int] by {
        assert forall|x: usize| stack0.contains(x) implies stack1.contains(x) by {
            let i = choose|i: int| 0 <= i < stack0.len() && stack0[i] == x;
            assert(stack1[i] == x);
        }
        assert(stack1[stack0.len() - 1] == u);
        assert(stack1.contains(u));
        assert(w != u as int);
        assert(!stack0.contains(w as usize));
        assert(vis0[w]);
        assert(vis0[g.adj@[w]@[j].to as int]);
    }
}

/// Popping a node whose neighbors are all visited keeps every off-stack
/// visited node exhausted.
proof fn lemma_closed_after_pop(
    g: Graph,
    vis0: Seq<bool>,
    vis1: Seq<bool>,
    stack0: Seq<usize>,
    u: usize,
)
    requires
        g.wf(),
        dfs_closed(g, vis0, stack0),
        vis0.len() == g.node_count,
        u < g.node_count,
        vis1 == vis0 || vis1 == vis0.update(u as int, true),
        vis1.len() == g.node_count,
        stack0.len() > 0,
        stack0[stack0.len() - 1] == u,
        forall|j: int|
            0 <= j < g.adj@[u as int]@.len() ==> vis1[(#[trigger] g.adj@[u as int]@[j]).to as int],
    ensures
        dfs_closed(g, vis1, stack0.drop_last()),
{
    let stack1 = stack0.drop_last();
    assert forall|w: int, j: int|
        0 <= w < g.node_count && vis1[w] && !stack1.contains(w as usize) && 0 <= j
            < g.adj@[w]@.len() implies vis1[(#[trigger] g.adj@[w]@[j]).to as int] by {
        if w == u as int {
            assert(vis1[(g.adj@[u as int]@[j]).to as int]);
        } else {
            if stack0.contains(w as usize) {
                let i = choose|i: int| 0 <= i < stack0.len() && stack0[i] == w as usize;
                if i < stack0.len() - 1 {
                    assert(stack1[i] == w as usize);
                    assert(stack1.contains(w as usize));
                } else {
                    assert(stack0[i] == u);
                    assert(w == u as int);
                }
                assert(false);
            }
            if vis1 == vis0 {
                assert(vis0[w]);
            } else {
                assert(vis1 == vis0.update(u as int, true));
                assert(vis1[w] == vis0[w]);
            }
            assert(vis0[g.adj@[w]@[j].to as int]);
            if vis1 == vis0.update(u as int, true) {
                assert(vis1[g.adj@[w]@[j].to as int] || g.adj@[w]@[j].to as int == u as int);
            }
        }
    }
}

/// Scans `u`'s adjacency list in order for the first unvisited neighbor.
fn first_unvisited_neighbor(g: &Graph, u: usize, visited: &Vec<bool>) -> (r: Option<usize>)
    requires
        g.wf(),
        u < g.node_count,
        visited@.len() == g.node_count,
    ensures
        r == first_unvis(g.adj@[u as int]@, visited@, 0),
        match r {
            Some(v) => v < g.node_count && !visited@[v as int] && g.has_edge(u as int, v as int),
            None => forall|j: int|
                0 <= j < g.adj@[u as int]@.len() ==> visited@[(#[trigger] g.adj@[u as int]@[j]).to
                    as int],
        },
{
    let ghost adj = g.adj@[u as int]@;
    let deg = g.adj[u].len();
    let mut j: usize = 0;
    while j < deg
        invariant
            g.wf(),
            u < g.node_count,
            visited@.len() == g.node_count,
            deg == adj.len(),
            adj == g.adj@[u as int]@,
            j <= deg,
            forall|k: int| 0 <= k < j ==> visited@[(#[trigger] adj[k]).to as int],
            first_unvis(adj, visited@, 0) == first_unvis(adj, visited@, j as int),
        decreases deg - j,
    {
        let e = g.adj[u][j];
        if !visited[e.to] {
            proof {
                assert(g.has_edge(u as int, e.to as int)) by {
                    assert(g.nbrs(u as int)[j as int].to == e.to);
                }
            }
            return Some(e.to);
        }
        j += 1;
    }
    None
}

/// Depth-first traversal from the named start city, recording one snapshot at
/// initialization, one per visited node, one per backtrack, and one terminal
/// snapshot. Neighbors are descended into in adjacency-list order. An unknown
/// start name yields an empty trace.
#[verifier::rlimit(100)]
pub fn dfs(graph: &Graph, idx_to_city: &Vec<String>, root_cityname_for_dfs: &String) -> (viz:
    Visualization)
    requires
        graph.wf(),
        idx_to_city@.len() == graph.node_count,
    ensures
        spec_resolve(idx_to_city@, root_cityname_for_dfs@) is None ==> viz.steps@.len() == 0,
        match spec_resolve(idx_to_city@, root_cityname_for_dfs@) {
            Some(start) => dfs_trace_ok(*graph, idx_to_city@, start, viz.steps@),
            None => true,
        },
{
    let start = match resolve_city(idx_to_city, root_cityname_for_dfs) {
        Some(idx) => idx,
        None => {
            return Visualization { steps: Vec::new() };
        },
    };
    let n = graph.node_count;
    let mut visited = false_flags(n);
    let mut parent = no_parents(n);
    let mut stack: Vec<usize> = Vec::new();
    stack.push(start);
    let mut traversal_edges: Vec<(usize, usize)> = Vec::new();
    let mut viz_steps: Vec<VisualizationStep> = Vec::new();

    viz_steps.push(
        VisualizationStep {
            visited_nodes: Vec::new(),
            current_node: Some(start),
            edges_in_path: Vec::new(),
            candidate_edges: edges_from_vec(graph, start),
            explanation: label_city("Starting DFS from ", &idx_to_city[start]),
        },
    );
    proof {
        assert(stack@ =~= seq![start]);
        lemma_count_true_upto_zero(visited@, n as int);
        lemma_trues_upto(visited@, n as int);
        assert(trues(visited@).len() == 0);
        assert(viz_steps@[0].visited_nodes@ == trues(visited@));
    }

    while stack.len() > 0
        invariant
            graph.wf(),
            idx_to_city@.len() == graph.node_count,
            n == graph.node_count,
            start < n,
            visited@.len() == n,
            parent@.len() == n,
            forall|k: int| 0 <= k < stack@.len() ==> (#[trigger] stack@[k]) < n,
            forall|k: int| 0 <= k < stack@.len() - 1 ==> visited@[(#[trigger] stack@[k]) as int],
            forall|k: int|
                0 <= k < stack@.len() && !visited@[(#[trigger] stack@[k]) as int] && stack@[k]
                    != start ==> parent@[stack@[k] as int] is Some,
            parent@[start as int] is None,
            forall|v: int|
                0 <= v < n ==> match #[trigger] parent@[v] {
                    Some(p) => p < n && visited@[p as int] && graph.has_edge(p as int, v),
                    None => true,
                },
            forall|v: int|
                0 <= v < n && #[trigger] visited@[v] ==> reachable(*graph, start, v as usize),
            dfs_closed(*graph, visited@, stack@),
            tree_shaped(traversal_edges@, start),
            forall|i: int|
                0 <= i < traversal_edges@.len() ==> ((#[trigger] traversal_edges@[i]).0 < n
                    && traversal_edges@[i].1 < n && visited@[traversal_edges@[i].0 as int]
                    && visited@[traversal_edges@[i].1 as int] && graph.has_edge(
                    traversal_edges@[i].0 as int,
                    traversal_edges@[i].1 as int,
                )),
            forall|v: int|
                0 <= v < n && #[trigger] visited@[v] && v != start ==> exists|i: int|
                    0 <= i < traversal_edges@.len() && (#[trigger] traversal_edges@[i]).1 as int
                        == v,
            ((forall|v: int| 0 <= v < n ==> !visited@[v]) && stack@ == seq![start]
                && traversal_edges@.len() == 0) || (visited@[start as int] && traversal_edges@.len()
                + 1 == count_true(visited@)),
            viz_steps@.len() >= 1,
            viz_steps@[0].visited_nodes@ == Seq::<usize>::empty(),
            viz_steps@[0].current_node == Some(start),
            viz_steps@[0].edges_in_path@ == Seq::<(usize, usize)>::empty(),
            viz_steps@[0].candidate_edges@ == edges_from(*graph, start),
            viz_steps@[0].explanation@ == "Starting DFS from "@ + idx_to_city@[start as int]@,
            forall|k: int|
                0 <= k < viz_steps@.len() ==> (#[trigger] viz_steps@[k]).current_node is Some,
            steps_monotone(viz_steps@),
            viz_steps@[viz_steps@.len() - 1].edges_in_path@ == traversal_edges@,
            viz_steps@[viz_steps@.len() - 1].visited_nodes@ == trues(visited@),
            forall|x: usize| #[trigger]
                viz_steps@[viz_steps@.len() - 1].visited_nodes@.contains(x) <==> x < n
                    && visited@[x as int],
            viz_steps@.len() >= 2 ==> viz_steps@[1].current_node == Some(start) && visit_step_ok(
                *graph,
                idx_to_city@,
                start,
                viz_steps@[0],
                viz_steps@[1],
            ),
            forall|k: int|
                1 <= k < viz_steps@.len() ==> visit_step_ok(
                    *graph,
                    idx_to_city@,
                    start,
                    viz_steps@[k - 1],
                    #[trigger] viz_steps@[k],
                ) || backtrack_step_ok(*graph, idx_to_city@, viz_steps@[k - 1], viz_steps@[k]),
            forall|k: int|
                0 <= k < viz_steps@.len() ==> strictly_increasing(
                    (#[trigger] viz_steps@[k]).visited_nodes@,
                ) && tree_shaped(viz_steps@[k].edges_in_path@, start) && ((
                viz_steps@[k].visited_nodes@.len() == 0 && viz_steps@[k].edges_in_path@.len() == 0)
                    || viz_steps@[k].edges_in_path@.len() + 1 == viz_steps@[k].visited_nodes@.len()),
            forall|k: int|
                1 <= k < viz_steps@.len() - 1 ==> {
                    let c = (#[trigger] viz_steps@[k]).current_node->Some_0;
                    match first_unvis(
                        graph.adj@[c as int]@,
                        flags_of(viz_steps@[k].visited_nodes@, n as nat),
                        0,
                    ) {
                        Some(v) => viz_steps@[k + 1].current_node == Some(v) && viz_steps@[k
                            + 1].edges_in_path@ == viz_steps@[k].edges_in_path@.push((c, v)),
                        None => backtrack_step_ok(
                            *graph,
                            idx_to_city@,
                            viz_steps@[k],
                            viz_steps@[k + 1],
                        ),
                    }
                },
            (stack@.len() > 0 && !visited@[stack@[stack@.len() - 1] as int]) ==> ((viz_steps@.len()
                == 1 && stack@ == seq![start]) || (viz_steps@.len() >= 2 && stack@.len() >= 2 && {
                let p = stack@[stack@.len() - 2];
                &&& p < n
                &&& visited@[p as int]
                &&& viz_steps@[viz_steps@.len() - 1].current_node == Some(p)
                &&& parent@[stack@[stack@.len() - 1] as int] == Some(p)
                &&& first_unvis(graph.adj@[p as int]@, visited@, 0) == Some(
                    stack@[stack@.len() - 1],
                )
            })),
            (stack@.len() > 0 && visited@[stack@[stack@.len() - 1] as int]) ==> (viz_steps@.len()
                >= 2 && viz_steps@[viz_steps@.len() - 1].current_node == Some(
                stack@[stack@.len() - 1],
            )),
            stack@.len() == 0 ==> (viz_steps@.len() >= 2 && {
                let lastst = viz_steps@[viz_steps@.len() - 1];
                &&& lastst.current_node is Some
                &&& lastst.current_node->Some_0 < n
                &&& first_unvis(graph.adj@[lastst.current_node->Some_0 as int]@, visited@, 0)
                    is None
            }),
            stack@.len() > 0 ==> viz_steps@.len() + stack@.len() - (if !visited@[stack@[stack@.len()
                - 1] as int] {
                1int
            } else {
                0int
            }) <= 2 * count_true(visited@) + 1,
            stack@.len() == 0 ==> viz_steps@.len() <= 2 * count_true(visited@),
        decreases dfs_measure(visited@, stack@),
    {
        let ghost measure0 = dfs_measure(visited@, stack@);
        let ghost vis0 = visited@;
        let ghost stack0 = stack@;
        let ghost edges0 = traversal_edges@;
        let u = stack[stack.len() - 1];

        if !visited[u] {
            visited[u] = true;
            proof {
                lemma_count_true_upto_update(vis0, u as int, n as int);
                if forall|v: int| 0 <= v < n ==> !vis0[v] {
                    lemma_count_true_upto_zero(vis0, n as int);
                }
                if u == start {
                    lemma_reachable_refl(*graph, start);
                }
            }
            let pu = parent[u];
            match pu {
                Some(p) => {
                    proof {
                        assert(u != start);
                        assert(vis0[p as int] && graph.has_edge(p as int, u as int));
                        assert(reachable(*graph, start, p));
                        lemma_reachable_step(*graph, start, p, u);
                        if p != start {
                            assert(exists|i: int|
                                0 <= i < traversal_edges@.len() && (
                                #[trigger] traversal_edges@[i]).1 as int == p as int);
                        }
                        assert forall|j: int| 0 <= j < traversal_edges@.len() implies (
                        #[trigger] traversal_edges@[j]).1 != u by {
                            assert(vis0[traversal_edges@[j].1 as int]);
                        }
                        lemma_tree_shaped_push(traversal_edges@, start, (p, u));
                    }
                    traversal_edges.push((p, u));
                    proof {
                        assert forall|v2: int|
                            0 <= v2 < n && #[trigger] visited@[v2] && v2 != start implies exists|
                            i: int,
                        |
                            0 <= i < traversal_edges@.len() && (#[trigger] traversal_edges@[i]).1
                                as int == v2 by {
                            if v2 == u as int {
                                assert(traversal_edges@[traversal_edges@.len() - 1].1 as int == v2);
                            } else {
                                assert(vis0[v2]);
                                let i = choose|i: int|
                                    0 <= i < edges0.len() && (#[trigger] edges0[i]).1 as int == v2;
                                assert(traversal_edges@[i].1 as int == v2);
                            }
                        }
                    }
                },
                None => {
                    proof {
                        assert(u == start);
                    }
                },
            }
            let vl = visited_list(&visited);
            let cand = unvisited_from_vec(graph, u, &visited);
            let expl = label_city("Visiting node ", &idx_to_city[u]);
            proof {
                lemma_trues_upto(visited@, visited@.len() as int);
            }
            let ghost before = viz_steps@;
            viz_steps.push(
                VisualizationStep {
                    visited_nodes: vl,
                    current_node: Some(u),
                    edges_in_path: copy_pairs(&traversal_edges),
                    candidate_edges: cand,
                    explanation: expl,
                },
            );
            proof {
                let snew = viz_steps@[viz_steps@.len() - 1];
                assert(viz_steps@ == before.push(snew));
                assert(before[before.len() - 1].edges_in_path@ == edges0);
                assert(edges0.is_prefix_of(traversal_edges@)) by {
                    if edges0 != traversal_edges@ {
                        assert(edges0 =~= traversal_edges@.subrange(0, edges0.len() as int));
                    }
                }
                assert forall|x: usize| #[trigger]
                    before[before.len() - 1].visited_nodes@.contains(x) implies
                    snew.visited_nodes@.contains(x) by {
                    assert(x < n && vis0[x as int]);
                    assert(visited@[x as int]);
                }
                lemma_steps_monotone_push(before, snew);
                // the new snapshot is a visiting step
                lemma_trues_upto(vis0, n as int);
                lemma_flags_of_trues(visited@, n as nat);
                let prevst = before[before.len() - 1];
                assert(snew.visited_nodes@ == trues(visited@));
                assert(visit_step_ok(*graph, idx_to_city@, start, prevst, snew)) by {
                    reveal(visit_step_ok);
                    assert(snew.current_node->Some_0 == u);
                    assert(!prevst.visited_nodes@.contains(u));
                    assert forall|x: usize| #[trigger]
                        snew.visited_nodes@.contains(x) <==> prevst.visited_nodes@.contains(x) || x
                            == u by {
                        if snew.visited_nodes@.contains(x) {
                            assert(x < n && visited@[x as int]);
                            if x != u {
                                assert(vis0[x as int]);
                            }
                        }
                        if prevst.visited_nodes@.contains(x) {
                            assert(x < n && vis0[x as int]);
                            assert(visited@[x as int]);
                        }
                        if x == u {
                            assert(visited@[u as int]);
                        }
                    }
                    assert(flags_of(snew.visited_nodes@, n as nat) == visited@);
                    if u != start {
                        let p = parent@[u as int]->Some_0;
                        assert(prevst.visited_nodes@.contains(p));
                        assert(snew.edges_in_path@ == prevst.edges_in_path@.push((p, u)));
                    }
                }
                assert forall|k: int|
                    1 <= k < viz_steps@.len() implies visit_step_ok(
                    *graph,
                    idx_to_city@,
                    start,
                    viz_steps@[k - 1],
                    #[trigger] viz_steps@[k],
                ) || backtrack_step_ok(*graph, idx_to_city@, viz_steps@[k - 1], viz_steps@[k]) by {
                    if k < before.len() {
                        assert(viz_steps@[k] == before[k] && viz_steps@[k - 1] == before[k - 1]);
                    } else {
                        assert(viz_steps@[k] == snew && viz_steps@[k - 1] == prevst);
                    }
                }
                assert forall|k: int|
                    0 <= k < viz_steps@.len() implies strictly_increasing(
                    (#[trigger] viz_steps@[k]).visited_nodes@,
                ) && tree_shaped(viz_steps@[k].edges_in_path@, start) && ((
                viz_steps@[k].visited_nodes@.len() == 0 && viz_steps@[k].edges_in_path@.len() == 0)
                    || viz_steps@[k].edges_in_path@.len() + 1
                    == viz_steps@[k].visited_nodes@.len()) by {
                    if k < before.len() {
                        assert(viz_steps@[k] == before[k]);
                    } else {
                        assert(viz_steps@[k] == snew);
                        assert(snew.visited_nodes@.len() == count_true(visited@));
                        assert(snew.edges_in_path@.len() + 1 == count_true(visited@));
                    }
                }
                assert forall|k: int| 1 <= k < viz_steps@.len() - 1 implies {
                    let c = (#[trigger] viz_steps@[k]).current_node->Some_0;
                    match first_unvis(
                        graph.adj@[c as int]@,
                        flags_of(viz_steps@[k].visited_nodes@, n as nat),
                        0,
                    ) {
                        Some(v) => viz_steps@[k + 1].current_node == Some(v) && viz_steps@[k
                            + 1].edges_in_path@ == viz_steps@[k].edges_in_path@.push((c, v)),
                        None => backtrack_step_ok(
                            *graph,
                            idx_to_city@,
                            viz_steps@[k],
                            viz_steps@[k + 1],
                        ),
                    }
                } by {
                    if k + 1 < before.len() {
                        assert(viz_steps@[k] == before[k] && viz_steps@[k + 1] == before[k + 1]);
                    } else {
                        // the new pair: the previous snapshot's first unvisited
                        // neighbor is exactly the node just visited
                        assert(k == before.len() - 1 && k >= 1);
                        assert(viz_steps@[k] == prevst && viz_steps@[k + 1] == snew);
                        assert(stack0.len() >= 2);
                        let p = stack0[stack0.len() - 2];
                        assert(prevst.current_node == Some(p));
                        assert(prevst.visited_nodes@ == trues(vis0));
                        lemma_flags_of_trues(vis0, n as nat);
                        assert(flags_of(prevst.visited_nodes@, n as nat) == vis0);
                        assert(first_unvis(graph.adj@[p as int]@, vis0, 0) == Some(u));
                        assert(parent@[u as int] == Some(p));
                        assert(snew.edges_in_path@ == prevst.edges_in_path@.push((p, u)));
                    }
                }
                if before.len() == 1 {
                    assert(stack0 == seq![start]);
                    assert(u == start);
                    assert(viz_steps@[1] == snew);
                }
            }
        }
        let ghost vis1 = visited@;
        let nxt = first_unvisited_neighbor(graph, u, &visited);
        match nxt {
            Some(v) => {
                parent[v] = Some(u);
                stack.push(v);
                proof {
                    assert forall|k: int|
                        0 <= k < stack@.len() && !visited@[(#[trigger] stack@[k]) as int]
                            && stack@[k] != start implies parent@[stack@[k] as int] is Some by {
                        if k < stack0.len() {
                            assert(stack@[k] == stack0[k]);
                        }
                    }
                    assert(visited@ == vis0 || visited@ == vis0.update(u as int, true));
                    assert(stack@ == stack0.push(v));
                    lemma_closed_after_descend(*graph, vis0, visited@, stack0, u, v);
                    // the new top is unvisited, so the measure drops
                    assert(stack@[stack@.len() - 1] == v && !visited@[v as int]);
                    assert(dfs_measure(visited@, stack@) < measure0);
                    // the pending descent into the fresh neighbor
                    assert(stack@[stack@.len() - 2] == u);
                    assert(viz_steps@[viz_steps@.len() - 1].current_node == Some(u));
                    assert(viz_steps@.len() >= 2);
                    assert(first_unvis(graph.adj@[u as int]@, visited@, 0) == Some(v));
                    assert(parent@[v as int] == Some(u));
                }
            },
            None => {
                let _popped = stack.pop();
                proof {
                    assert(stack@ == stack0.drop_last());
                    assert(visited@ == vis0 || visited@ == vis0.update(u as int, true));
                    lemma_closed_after_pop(*graph, vis0, visited@, stack0, u);
                    if stack@.len() > 0 {
                        assert(visited@[stack@[stack@.len() - 1] as int]);
                    } else {
                        assert(viz_steps@[viz_steps@.len() - 1].current_node == Some(u));
                        assert(viz_steps@.len() >= 2);
                        assert(first_unvis(graph.adj@[u as int]@, visited@, 0) is None);
                    }
                    assert(dfs_measure(visited@, stack@) < measure0);
                }
                if stack.len() > 0 {
                    let t = stack[stack.len() - 1];
                    let vl2 = visited_list(&visited);
                    let cand2 = unvisited_from_vec(graph, t, &visited);
                    let expl2 = label_city("Backtracking to ", &idx_to_city[t]);
                    proof {
                        lemma_trues_upto(visited@, visited@.len() as int);
                    }
                    let ghost before = viz_steps@;
                    viz_steps.push(
                        VisualizationStep {
                            visited_nodes: vl2,
                            current_node: Some(t),
                            edges_in_path: copy_pairs(&traversal_edges),
                            candidate_edges: cand2,
                            explanation: expl2,
                        },
                    );
                    proof {
                        let snew = viz_steps@[viz_steps@.len() - 1];
                        assert(viz_steps@ == before.push(snew));
                        assert(before[before.len() - 1].edges_in_path@ == traversal_edges@);
                        assert(traversal_edges@.is_prefix_of(traversal_edges@)) by {
                            assert(traversal_edges@ =~= traversal_edges@.subrange(
                                0,
                                traversal_edges@.len() as int,
                            ));
                        }
                        assert forall|x: usize| #[trigger]
                            before[before.len() - 1].visited_nodes@.contains(x) implies
                            snew.visited_nodes@.contains(x) by {
                            assert(x < n && visited@[x as int]);
                        }
                        lemma_steps_monotone_push(before, snew);
                        // the new snapshot is a backtracking step
                        lemma_flags_of_trues(visited@, n as nat);
                        let prevst = before[before.len() - 1];
                        assert(snew.visited_nodes@ == trues(visited@));
                        assert(prevst.visited_nodes@ == trues(visited@));
                        assert(prevst.current_node == Some(u));
                        assert(backtrack_step_ok(*graph, idx_to_city@, prevst, snew)) by {
                            reveal(backtrack_step_ok);
                            assert(snew.current_node->Some_0 == t);
                            assert(visited@[t as int]);
                            assert(snew.visited_nodes@.contains(t));
                            assert(snew.visited_nodes@ == prevst.visited_nodes@);
                            assert(snew.edges_in_path@ == prevst.edges_in_path@);
                            assert(flags_of(snew.visited_nodes@, n as nat) == visited@);
                        }
                        assert forall|k: int|
                            1 <= k < viz_steps@.len() implies visit_step_ok(
                            *graph,
                            idx_to_city@,
                            start,
                            viz_steps@[k - 1],
                            #[trigger] viz_steps@[k],
                        ) || backtrack_step_ok(
                            *graph,
                            idx_to_city@,
                            viz_steps@[k - 1],
                            viz_steps@[k],
                        ) by {
                            if k < before.len() {
                                assert(viz_steps@[k] == before[k] && viz_steps@[k - 1] == before[k
                                    - 1]);
                            } else {
                                assert(viz_steps@[k] == snew && viz_steps@[k - 1] == prevst);
                            }
                        }
                        assert forall|k: int|
                            0 <= k < viz_steps@.len() implies strictly_increasing(
                            (#[trigger] viz_steps@[k]).visited_nodes@,
                        ) && tree_shaped(viz_steps@[k].edges_in_path@, start) && ((
                        viz_steps@[k].visited_nodes@.len() == 0 && viz_steps@[k].edges_in_path@.len()
                            == 0) || viz_steps@[k].edges_in_path@.len() + 1
                            == viz_steps@[k].visited_nodes@.len()) by {
                            if k < before.len() {
                                assert(viz_steps@[k] == before[k]);
                            } else {
                                assert(viz_steps@[k] == snew);
                                assert(snew.visited_nodes@.len() == count_true(visited@));
                            }
                        }
                        assert forall|k: int| 1 <= k < viz_steps@.len() - 1 implies {
                            let c = (#[trigger] viz_steps@[k]).current_node->Some_0;
                            match first_unvis(
                                graph.adj@[c as int]@,
                                flags_of(viz_steps@[k].visited_nodes@, n as nat),
                                0,
                            ) {
                                Some(v) => viz_steps@[k + 1].current_node == Some(v) && viz_steps@[k
                                    + 1].edges_in_path@ == viz_steps@[k].edges_in_path@.push(
                                    (c, v),
                                ),
                                None => backtrack_step_ok(
                                    *graph,
                                    idx_to_city@,
                                    viz_steps@[k],
                                    viz_steps@[k + 1],
                                ),
                            }
                        } by {
                            if k + 1 < before.len() {
                                assert(viz_steps@[k] == before[k] && viz_steps@[k + 1] == before[k
                                    + 1]);
                            } else {
                                // the popped node had no unvisited neighbor left
                                assert(k == before.len() - 1);
                                assert(viz_steps@[k] == prevst && viz_steps@[k + 1] == snew);
                                assert(flags_of(prevst.visited_nodes@, n as nat) == visited@);
                                assert(first_unvis(graph.adj@[u as int]@, visited@, 0) is None);
                            }
                        }
                    }
                }
            },
        }
        proof {
            lemma_count_true_upto_bound(visited@, n as int);
            if stack@.len() > 0 && !visited@[stack@[stack@.len() - 1] as int] {
                lemma_count_true_upto_missing(visited@, stack@[stack@.len() - 1] as int, n as int);
            }
        }
    }

    let terminal_visited = visited_list(&visited);
    proof {
        lemma_trues_upto(visited@, visited@.len() as int);
        assert(visited@[start as int]);
        assert forall|v: int, j: int|
            0 <= v < n && visited@[v] && 0 <= j < graph.adj@[v]@.len() implies visited@[(
        #[trigger] graph.adj@[v]@[j]).to as int] by {
            assert(!stack@.contains(v as usize));
        }
        lemma_closed_reaches(*graph, visited@, start);
    }
    let ghost before = viz_steps@;
    viz_steps.push(
        VisualizationStep {
            visited_nodes: terminal_visited,
            current_node: None,
            edges_in_path: traversal_edges,
            candidate_edges: Vec::new(),
            explanation: "DFS traversal complete".to_owned(),
        },
    );
    proof {
        let now = viz_steps@;
        let snew = now[now.len() - 1];
        let last = snew;
        assert(now == before.push(snew));
        assert(before[before.len() - 1].edges_in_path@ == last.edges_in_path@);
        assert(last.edges_in_path@.is_prefix_of(last.edges_in_path@)) by {
            assert(last.edges_in_path@ =~= last.edges_in_path@.subrange(
                0,
                last.edges_in_path@.len() as int,
            ));
        }
        assert forall|x: usize| #[trigger]
            before[before.len() - 1].visited_nodes@.contains(x) implies
            snew.visited_nodes@.contains(x) by {
            assert(x < n && visited@[x as int]);
            assert(snew.visited_nodes@.contains(x));
        }
        lemma_steps_monotone_push(before, snew);
        assert forall|v: usize|
            #![trigger last.visited_nodes@.contains(v)]
            #![trigger reachable(*graph, start, v)]
            last.visited_nodes@.contains(v) <==> reachable(*graph, start, v) by {
            if last.visited_nodes@.contains(v) {
                assert(v < n && visited@[v as int]);
                assert(reachable(*graph, start, v));
            }
            if reachable(*graph, start, v) {
                assert(visited@[v as int]);
                assert(last.visited_nodes@.contains(v));
            }
        }
        assert forall|v: usize|
            #[trigger] last.visited_nodes@.contains(v) && v != start implies exists|i: int|
            0 <= i < last.edges_in_path@.len() && (#[trigger] last.edges_in_path@[i]).1 == v by {
            assert(visited@[v as int]);
            let i = choose|i: int|
                0 <= i < last.edges_in_path@.len() && (#[trigger] last.edges_in_path@[i]).1 as int
                    == v as int;
            assert(last.edges_in_path@[i].1 == v);
        }
        // classification, descent convention, and length carry to the full trace
        assert(now[1] == before[1]);
        assert forall|k: int|
            1 <= k < now.len() - 1 implies visit_step_ok(
            *graph,
            idx_to_city@,
            start,
            now[k - 1],
            #[trigger] now[k],
        ) || backtrack_step_ok(*graph, idx_to_city@, now[k - 1], now[k]) by {
            assert(now[k] == before[k] && now[k - 1] == before[k - 1]);
        }
        assert forall|k: int|
            0 <= k < now.len() implies strictly_increasing((#[trigger] now[k]).visited_nodes@)
                && tree_shaped(now[k].edges_in_path@, start) && ((now[k].visited_nodes@.len() == 0
                && now[k].edges_in_path@.len() == 0) || now[k].edges_in_path@.len() + 1
                == now[k].visited_nodes@.len()) by {
            if k < before.len() {
                assert(now[k] == before[k]);
            } else {
                assert(now[k] == snew);
                assert(snew.visited_nodes@.len() == count_true(visited@));
            }
        }
        lemma_flags_of_trues(visited@, n as nat);
        assert forall|k: int| 1 <= k < now.len() - 1 implies {
            let c = (#[trigger] now[k]).current_node->Some_0;
            match first_unvis(
                graph.adj@[c as int]@,
                flags_of(now[k].visited_nodes@, n as nat),
                0,
            ) {
                Some(v2) => k + 1 < now.len() - 1 && now[k + 1].current_node == Some(v2) && now[k
                    + 1].edges_in_path@ == now[k].edges_in_path@.push((c, v2)),
                None => k + 1 == now.len() - 1 || backtrack_step_ok(
                    *graph,
                    idx_to_city@,
                    now[k],
                    now[k + 1],
                ),
            }
        } by {
            if k + 1 < now.len() - 1 {
                assert(now[k] == before[k] && now[k + 1] == before[k + 1]);
            } else {
                // the final snapshot before the terminal one had no unvisited
                // neighbor left to descend into
                assert(now[k] == before[before.len() - 1]);
                assert(now[k].visited_nodes@ == trues(visited@));
                assert(flags_of(now[k].visited_nodes@, n as nat) == visited@);
                assert(first_unvis(
                    graph.adj@[now[k].current_node->Some_0 as int]@,
                    visited@,
                    0,
                ) is None);
            }
        }
        assert(now.len() <= 2 * n + 1) by {
            lemma_count_true_upto_bound(visited@, n as int);
        }
        assert(dfs_trace_ok(*graph, idx_to_city@, start, now));
    }
    Visualization { steps: viz_steps }
}

} // verus!
