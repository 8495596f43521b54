use graph_trace::dfs::dfs;
use graph_trace::dijkstra::dijkstra;
use graph_trace::graph::create_city_graph;
use graph_trace::graph::resolve_city;
use graph_trace::graph::Graph;
use graph_trace::graph::Visualization;
use graph_trace::prim::prim;

/// The lightest stored edge between `u` and `v` (parallel edges allowed).
fn weight_of(graph: &Graph, u: usize, v: usize) -> u32 {
    graph.adj[u]
        .iter()
        .filter(|e| e.to == v)
        .map(|e| e.weight)
        .min()
        .unwrap_or_else(|| panic!("no edge {} -> {}", u, v))
}

/// Distances read off a trace's terminal shortest-path tree, parents first.
fn distances_from_tree(graph: &Graph, viz: &Visualization, start: usize) -> Vec<Option<u64>> {
    let mut dist: Vec<Option<u64>> = vec![None; graph.node_count];
    dist[start] = Some(0);
    let last = viz.steps.last().unwrap();
    for &(f, t) in &last.edges_in_path {
        let base = dist[f].expect("parent settled before child");
        dist[t] = Some(base + weight_of(graph, f, t) as u64);
    }
    dist
}

fn assert_traces_equal(a: &Visualization, b: &Visualization) {
    assert_eq!(a.steps.len(), b.steps.len());
    for (x, y) in a.steps.iter().zip(b.steps.iter()) {
        assert_eq!(x.visited_nodes, y.visited_nodes);
        assert_eq!(x.current_node, y.current_node);
        assert_eq!(x.edges_in_path, y.edges_in_path);
        assert_eq!(x.candidate_edges, y.candidate_edges);
        assert_eq!(x.explanation, y.explanation);
    }
}

#[test]
fn city_graph_shape() {
    let (graph, names) = create_city_graph();
    assert_eq!(graph.node_count, 10);
    assert_eq!(graph.adj.len(), 10);
    assert_eq!(names.len(), 10);
    assert_eq!(names[0], "Beijing");
    assert_eq!(names[9], "Zhusanjiao");
    // undirected: each stored edge has its reciprocal
    for u in 0..10 {
        for e in &graph.adj[u] {
            assert!(graph.adj[e.to].iter().any(|b| b.to == u && b.weight == e.weight));
        }
    }
    // Beijing's adjacency in insertion order
    let row: Vec<(usize, u32)> = graph.adj[0].iter().map(|e| (e.to, e.weight)).collect();
    assert_eq!(row, vec![(1, 750), (2, 800), (3, 1140), (4, 650)]);
}

#[test]
fn resolver_finds_each_city_and_rejects_unknown() {
    let (_, names) = create_city_graph();
    for (i, name) in names.iter().enumerate() {
        assert_eq!(resolve_city(&names, name), Some(i));
    }
    assert_eq!(resolve_city(&names, &"Atlantis".to_string()), None);
}

#[test]
fn graph_new_and_add_edge() {
    let mut g = Graph::new(3);
    assert_eq!(g.node_count, 3);
    assert!(g.adj.iter().all(|l| l.is_empty()));
    g.add_edge(0, 2, 7);
    assert_eq!(g.adj[0].len(), 1);
    assert_eq!(g.adj[2].len(), 1);
    assert_eq!(g.adj[0][0].to, 2);
    assert_eq!(g.adj[0][0].weight, 7);
    assert_eq!(g.adj[2][0].to, 0);
    assert_eq!(g.adj[2][0].weight, 7);
}

#[test]
fn dfs_from_beijing_visits_everything_in_adjacency_order() {
    let (graph, names) = create_city_graph();
    let viz = dfs(&graph, &names, &"Beijing".to_string());
    let first = &viz.steps[0];
    assert_eq!(first.visited_nodes, Vec::<usize>::new());
    assert_eq!(first.current_node, Some(0));
    assert!(first.edges_in_path.is_empty());
    assert_eq!(first.candidate_edges, vec![(0, 1), (0, 2), (0, 3), (0, 4)]);
    assert_eq!(first.explanation, "Starting DFS from Beijing");

    let last = viz.steps.last().unwrap();
    assert_eq!(last.current_node, None);
    assert!(last.candidate_edges.is_empty());
    assert_eq!(last.explanation, "DFS traversal complete");
    assert_eq!(last.visited_nodes, (0..10).collect::<Vec<usize>>());
    // descending always into the first unvisited neighbor
    assert_eq!(
        last.edges_in_path,
        vec![(0, 1), (1, 2), (2, 4), (4, 3), (3, 6), (6, 7), (7, 5), (5, 8), (8, 9)]
    );
}

#[test]
fn dfs_spans_only_reachable_component() {
    // two triangles, disconnected
    let mut g = Graph::new(6);
    g.add_edge(0, 1, 1);
    g.add_edge(1, 2, 1);
    g.add_edge(2, 0, 1);
    g.add_edge(3, 4, 1);
    g.add_edge(4, 5, 1);
    g.add_edge(5, 3, 1);
    let names: Vec<String> = vec!["a", "b", "c", "d", "e", "f"]
        .into_iter()
        .map(|s| s.to_string())
        .collect();
    let viz = dfs(&g, &names, &"a".to_string());
    let last = viz.steps.last().unwrap();
    assert_eq!(last.visited_nodes, vec![0, 1, 2]);
    assert_eq!(last.edges_in_path.len(), 2);
}

#[test]
fn dfs_trace_is_monotone() {
    let (graph, names) = create_city_graph();
    let viz = dfs(&graph, &names, &"Wuhan".to_string());
    for w in viz.steps.windows(2) {
        assert!(w[1].edges_in_path.starts_with(&w[0].edges_in_path));
        for v in &w[0].visited_nodes {
            assert!(w[1].visited_nodes.contains(v));
        }
    }
    for st in &viz.steps[..viz.steps.len() - 1] {
        assert!(st.current_node.is_some());
    }
}

#[test]
fn dijkstra_from_beijing_reports_exact_distances() {
    let (graph, names) = create_city_graph();
    let viz = dijkstra(&graph, &names, &"Beijing".to_string());
    let dist = distances_from_tree(&graph, &viz, 0);
    let expected: Vec<u64> = vec![0, 750, 800, 1140, 650, 1180, 1980, 2080, 1760, 2560];
    for (v, want) in expected.iter().enumerate() {
        assert_eq!(dist[v], Some(*want), "distance to {}", names[v]);
    }
    // direct edge to Zhengzhou, and Zhusanjiao strictly farther
    assert_eq!(dist[4], Some(650));
    assert!(dist[9].unwrap() > dist[4].unwrap());
}

#[test]
fn dijkstra_trace_structure() {
    let (graph, names) = create_city_graph();
    let viz = dijkstra(&graph, &names, &"Beijing".to_string());
    let first = &viz.steps[0];
    assert_eq!(first.current_node, Some(0));
    assert_eq!(first.explanation, "Starting Dijkstra's algorithm from Beijing");
    let last = viz.steps.last().unwrap();
    assert_eq!(last.current_node, None);
    assert_eq!(last.explanation, "Dijkstra's algorithm complete");
    // one step per settled node, settle order starts at the source
    assert_eq!(viz.steps.len(), last.visited_nodes.len() + 2);
    assert_eq!(last.visited_nodes[0], 0);
    assert_eq!(last.visited_nodes.len(), 10);
    assert_eq!(last.edges_in_path.len(), 9);
    // the k-th settle step carries the first k settled nodes
    for k in 1..=last.visited_nodes.len() {
        let st = &viz.steps[k];
        assert_eq!(st.current_node, Some(last.visited_nodes[k - 1]));
        assert_eq!(st.visited_nodes, last.visited_nodes[..k].to_vec());
        assert_eq!(st.edges_in_path, last.edges_in_path[..k - 1].to_vec());
        assert_eq!(
            st.explanation,
            format!("Visiting node {}", names[last.visited_nodes[k - 1]])
        );
    }
}

#[test]
fn prim_from_beijing_finds_minimum_spanning_tree() {
    let (graph, names) = create_city_graph();
    let viz = prim(&graph, &names, &"Beijing".to_string());
    let last = viz.steps.last().unwrap();
    assert_eq!(last.current_node, None);
    assert!(last.candidate_edges.is_empty());
    assert_eq!(last.edges_in_path.len(), 9);
    let total: u64 = last
        .edges_in_path
        .iter()
        .map(|&(f, t)| weight_of(&graph, f, t) as u64)
        .sum();
    assert_eq!(total, 6420);
    assert_eq!(
        last.explanation,
        format!("Prim's algorithm complete. Total MST weight: {}", 6420)
    );
}

#[test]
fn prim_from_any_start_yields_nine_edges_of_weight_6420() {
    let (graph, names) = create_city_graph();
    for name in &names {
        let viz = prim(&graph, &names, name);
        let last = viz.steps.last().unwrap();
        assert_eq!(last.edges_in_path.len(), 9, "start {}", name);
        let total: u64 = last
            .edges_in_path
            .iter()
            .map(|&(f, t)| weight_of(&graph, f, t) as u64)
            .sum();
        assert_eq!(total, 6420, "start {}", name);
        assert_eq!(last.visited_nodes, (0..10).collect::<Vec<usize>>());
    }
}

#[test]
fn prim_first_step_and_explanations() {
    let (graph, names) = create_city_graph();
    let viz = prim(&graph, &names, &"Chengdu".to_string());
    let first = &viz.steps[0];
    assert_eq!(first.visited_nodes, vec![6]);
    assert_eq!(first.current_node, Some(6));
    assert!(first.edges_in_path.is_empty());
    assert_eq!(first.candidate_edges, vec![(6, 3), (6, 7)]);
    assert_eq!(first.explanation, "Starting Prim's algorithm from Chengdu");
    // the first accepted edge is the lightest one leaving Chengdu
    let second = &viz.steps[1];
    assert_eq!(second.edges_in_path, vec![(6, 7)]);
    assert_eq!(second.explanation, "Adding edge (Chengdu, Chongqing) with weight 340 to MST");
}

#[test]
fn prim_on_disconnected_graph_spans_one_component() {
    let mut g = Graph::new(4);
    g.add_edge(0, 1, 5);
    g.add_edge(2, 3, 5);
    let names: Vec<String> = vec!["a", "b", "c", "d"].into_iter().map(|s| s.to_string()).collect();
    let viz = prim(&g, &names, &"a".to_string());
    let last = viz.steps.last().unwrap();
    assert_eq!(last.visited_nodes, vec![0, 1]);
    assert_eq!(last.edges_in_path, vec![(0, 1)]);
    assert_eq!(last.explanation, "Prim's algorithm complete. Total MST weight: 5");
}

#[test]
fn unknown_start_yields_empty_trace_for_every_engine() {
    let (graph, names) = create_city_graph();
    let ghost_town = "Shangri-La".to_string();
    assert!(dfs(&graph, &names, &ghost_town).steps.is_empty());
    assert!(dijkstra(&graph, &names, &ghost_town).steps.is_empty());
    assert!(prim(&graph, &names, &ghost_town).steps.is_empty());
}

#[test]
fn engines_are_deterministic() {
    let (graph, names) = create_city_graph();
    for name in ["Beijing", "Wuhan", "Zhusanjiao"] {
        let n = name.to_string();
        assert_traces_equal(&dfs(&graph, &names, &n), &dfs(&graph, &names, &n));
        assert_traces_equal(&dijkstra(&graph, &names, &n), &dijkstra(&graph, &names, &n));
        assert_traces_equal(&prim(&graph, &names, &n), &prim(&graph, &names, &n));
    }
}

#[test]
fn self_loops_and_parallel_edges_are_tolerated() {
    let mut g = Graph::new(3);
    g.add_edge(0, 0, 9);
    g.add_edge(0, 1, 4);
    g.add_edge(0, 1, 2);
    g.add_edge(1, 2, 3);
    let names: Vec<String> = vec!["x", "y", "z"].into_iter().map(|s| s.to_string()).collect();
    let d = dfs(&g, &names, &"x".to_string());
    assert_eq!(d.steps.last().unwrap().visited_nodes, vec![0, 1, 2]);
    let p = prim(&g, &names, &"x".to_string());
    let last = p.steps.last().unwrap();
    assert_eq!(last.edges_in_path, vec![(0, 1), (1, 2)]);
    assert_eq!(last.explanation, "Prim's algorithm complete. Total MST weight: 5");
    let s = dijkstra(&g, &names, &"x".to_string());
    let dist = distances_from_tree(&g, &s, 0);
    assert_eq!(dist[1], Some(2));
    assert_eq!(dist[2], Some(5));
}

#[test]
fn dijkstra_saturating_distances_leave_far_nodes_unsettled() {
    // the only route to node 2 overflows the distance type
    let mut g = Graph::new(3);
    g.add_edge(0, 1, u32::MAX - 1);
    g.add_edge(1, 2, 2);
    let names: Vec<String> = vec!["x", "y", "z"].into_iter().map(|s| s.to_string()).collect();
    let viz = dijkstra(&g, &names, &"x".to_string());
    let last = viz.steps.last().unwrap();
    assert_eq!(last.visited_nodes, vec![0, 1]);
    assert_eq!(last.edges_in_path, vec![(0, 1)]);
}
