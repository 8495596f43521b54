use vstd::prelude::*;

verus! {

/// One entry of an adjacency list: the node the edge leads to and its weight.
#[derive(Debug, Clone, Copy, PartialEq, Eq, Structural)]
pub struct Edge {
    pub to: usize,
    pub weight: u32,
}

/// A weighted undirected graph as adjacency lists, one per node index.
/// Built once by `new` and `add_edge`, then shared read-only with the engines.
#[derive(Debug, Clone)]
pub struct Graph {
    pub adj: Vec<Vec<Edge>>,
    pub node_count: usize,
}

/// One immutable snapshot of an engine's state, suitable for step-by-step replay.
#[derive(Debug, Clone)]
pub struct VisualizationStep {
    /// Node indices marked visited or settled at this point, each listed once.
    pub visited_nodes: Vec<usize>,
    /// The node being processed; absent only on the terminal step.
    pub current_node: Option<usize>,
    /// Edges already committed to the result; grows monotonically over the trace.
    pub edges_in_path: Vec<(usize, usize)>,
    /// Edges currently eligible for future consideration; replaced each step.
    pub candidate_edges: Vec<(usize, usize)>,
    /// Human-readable description of what just happened; informational only.
    pub explanation: String,
}

/// An ordered, append-only sequence of snapshots: one engine run's full trace.
#[derive(Debug, Clone)]
pub struct Visualization {
    pub steps: Vec<VisualizationStep>,
}

impl Graph {
    /// Well-formed: one adjacency list per node, every stored edge target in range.
    pub open spec fn wf(self) -> bool {
        &&& self.adj@.len() == self.node_count
        &&& forall|i: int, j: int|
            0 <= i < self.adj@.len() && 0 <= j < self.adj@[i]@.len()
                ==> (#[trigger] self.adj@[i]@[j]).to < self.node_count
    }

    /// The adjacency list of node `u`.
    pub open spec fn nbrs(self, u: int) -> Seq<Edge> {
        self.adj@[u]@
    }

    /// Some stored entry on `u`'s list leads to `v` with weight `w`.
    pub open spec fn has_weighted_edge(self, u: int, v: int, w: u32) -> bool {
        &&& 0 <= u < self.adj@.len()
        &&& exists|j: int|
            0 <= j < self.nbrs(u).len() && (#[trigger] self.nbrs(u)[j]) == (Edge {
                to: v as usize,
                weight: w,
            }) && v == self.nbrs(u)[j].to as int
    }

    /// Some stored entry on `u`'s list leads to `v` (with any weight).
    pub open spec fn has_edge(self, u: int, v: int) -> bool {
        &&& 0 <= u < self.adj@.len()
        &&& exists|j: int|
            0 <= j < self.nbrs(u).len() && (#[trigger] self.nbrs(u)[j]).to as int == v
    }

    /// Undirectedness: every stored edge has a reciprocal entry.
    pub open spec fn undirected(self) -> bool {
        forall|u: int, v: int, w: u32|
            #[trigger] self.has_weighted_edge(u, v, w) ==> self.has_weighted_edge(v, u, w)
    }

    /// Creates a graph with `node_count` nodes and no edges.
    pub fn new(node_count: usize) -> (g: Graph)
        ensures
            g.node_count == node_count,
            g.adj@.len() == node_count,
            forall|i: int| 0 <= i < node_count ==> (#[trigger] g.adj@[i])@.len() == 0,
            g.wf(),
            g.undirected(),
    {
        let mut adj: Vec<Vec<Edge>> = Vec::new();
        let mut i: usize = 0;
        while i < node_count
            invariant
                i <= node_count,
                adj@.len() == i,
                forall|k: int| 0 <= k < i ==> (#[trigger] adj@[k])@.len() == 0,
            decreases node_count - i,
        {
            adj.push(Vec::new());
            i += 1;
        }
        let g = Graph { adj, node_count };
        proof {
            assert forall|u: int, v: int, w: u32| #[trigger]
                g.has_weighted_edge(u, v, w) implies g.has_weighted_edge(v, u, w) by {
                assert(g.nbrs(u).len() == 0);
            }
        }
        g
    }

    /// Adds an undirected edge between `u` and `v`: appends the entry `v` on
    /// `u`'s list and the reciprocal entry `u` on `v`'s list.
    pub fn add_edge(&mut self, u: usize, v: usize, weight: u32)
        requires
            old(self).wf(),
            u < old(self).node_count,
            v < old(self).node_count,
        ensures
            final(self).node_count == old(self).node_count,
            final(self).adj@.len() == old(self).adj@.len(),
            u != v ==> {
                &&& final(self).adj@[u as int]@ == old(self).adj@[u as int]@.push(
                    (Edge { to: v, weight }),
                )
                &&& final(self).adj@[v as int]@ == old(self).adj@[v as int]@.push(
                    (Edge { to: u, weight }),
                )
            },
            u == v ==> final(self).adj@[u as int]@ == old(self).adj@[u as int]@.push(
                (Edge { to: v, weight }),
            ).push((Edge { to: u, weight })),
            forall|i: int|
                0 <= i < old(self).adj@.len() && i != u && i != v ==> final(self).adj@[i]
                    == old(self).adj@[i],
            final(self).wf(),
            old(self).undirected() ==> final(self).undirected(),
    {
        self.adj[u].push(Edge { to: v, weight });
        self.adj[v].push(Edge { to: u, weight });
        proof {
            let prev = *old(self);
            let cur = *self;
            assert forall|i: int, j: int|
                0 <= i < cur.adj@.len() && 0 <= j < cur.adj@[i]@.len() implies (
            #[trigger] cur.adj@[i]@[j]).to < cur.node_count by {
                if j < prev.adj@[i]@.len() {
                    assert(cur.adj@[i]@[j] == prev.adj@[i]@[j]);
                }
            }
            if prev.undirected() {
                assert forall|a: int, b: int, w: u32| #[trigger]
                    cur.has_weighted_edge(a, b, w) implies cur.has_weighted_edge(b, a, w) by {
                    let j = choose|j: int|
                        0 <= j < cur.nbrs(a).len() && (#[trigger] cur.nbrs(a)[j]) == (Edge {
                            to: b as usize,
                            weight: w,
                        }) && b == cur.nbrs(a)[j].to as int;
                    if a < prev.adj@.len() && j < prev.nbrs(a).len() && prev.nbrs(a)[j] == cur.nbrs(
                        a,
                    )[j] {
                        assert(prev.has_weighted_edge(a, b, w));
                        assert(prev.has_weighted_edge(b, a, w));
                        let k = choose|k: int|
                            0 <= k < prev.nbrs(b).len() && (#[trigger] prev.nbrs(b)[k]) == (Edge {
                                to: a as usize,
                                weight: w,
                            }) && a == prev.nbrs(b)[k].to as int;
                        assert(cur.nbrs(b)[k] == prev.nbrs(b)[k]);
                    } else {
                        // The witness is one of the two entries just pushed.
                        assert((a == u as int && b == v as int && w == weight) || (a == v as int && b
                            == u as int && w == weight));
                        if a == u as int && b == v as int {
                            let k = cur.nbrs(v as int).len() - 1;
                            assert(cur.nbrs(v as int)[k] == (Edge { to: u, weight }));
                        } else {
                            let k = cur.nbrs(u as int).len() - (if u == v { 2int } else { 1int });
                            assert(cur.nbrs(u as int)[k] == (Edge { to: v, weight }));
                        }
                    }
                }
            }
        }
    }
}

/// Builds the fixed ten-city graph with its seventeen undirected edges, and
/// the list of city names; a name's position is its node index, so the list
/// is also the resolver that `resolve_city` searches.
pub fn create_city_graph() -> (r: (Graph, Vec<String>))
    ensures
        r.0.wf(),
        r.0.undirected(),
        r.0.node_count == 10,
        r.1@.len() == 10,
        r.1@[0]@ == "Beijing"@,
        r.1@[1]@ == "Shenyang"@,
        r.1@[2]@ == "Qingdao"@,
        r.1@[3]@ == "Xian"@,
        r.1@[4]@ == "Zhengzhou"@,
        r.1@[5]@ == "Wuhan"@,
        r.1@[6]@ == "Chengdu"@,
        r.1@[7]@ == "Chongqing"@,
        r.1@[8]@ == "Changsanjiao"@,
        r.1@[9]@ == "Zhusanjiao"@,
        r.0.adj@[0]@ =~= seq![
            (Edge { to: 1, weight: 750 }),
            (Edge { to: 2, weight: 800 }),
            (Edge { to: 3, weight: 1140 }),
            (Edge { to: 4, weight: 650 }),
        ],
        r.0.adj@[1]@ =~= seq![(Edge { to: 0, weight: 750 }), (Edge { to: 2, weight: 680 })],
        r.0.adj@[2]@ =~= seq![
            (Edge { to: 1, weight: 680 }),
            (Edge { to: 0, weight: 800 }),
            (Edge { to: 4, weight: 820 }),
            (Edge { to: 8, weight: 960 }),
        ],
        r.0.adj@[3]@ =~= seq![
            (Edge { to: 0, weight: 1140 }),
            (Edge { to: 4, weight: 570 }),
            (Edge { to: 6, weight: 840 }),
        ],
        r.0.adj@[4]@ =~= seq![
            (Edge { to: 0, weight: 650 }),
            (Edge { to: 3, weight: 570 }),
            (Edge { to: 2, weight: 820 }),
            (Edge { to: 5, weight: 530 }),
            (Edge { to: 8, weight: 1200 }),
        ],
        r.0.adj@[5]@ =~= seq![
            (Edge { to: 4, weight: 530 }),
            (Edge { to: 7, weight: 900 }),
            (Edge { to: 8, weight: 680 }),
            (Edge { to: 9, weight: 1380 }),
        ],
        r.0.adj@[6]@ =~= seq![(Edge { to: 3, weight: 840 }), (Edge { to: 7, weight: 340 })],
        r.0.adj@[7]@ =~= seq![
            (Edge { to: 6, weight: 340 }),
            (Edge { to: 5, weight: 900 }),
            (Edge { to: 9, weight: 2500 }),
        ],
        r.0.adj@[8]@ =~= seq![
            (Edge { to: 4, weight: 1200 }),
            (Edge { to: 2, weight: 960 }),
            (Edge { to: 5, weight: 680 }),
            (Edge { to: 9, weight: 2600 }),
        ],
        r.0.adj@[9]@ =~= seq![
            (Edge { to: 7, weight: 2500 }),
            (Edge { to: 5, weight: 1380 }),
            (Edge { to: 8, weight: 2600 }),
        ],
{
    let mut graph = Graph::new(10);
    let mut idx_to_city: Vec<String> = Vec::new();
    idx_to_city.push("Beijing".to_owned());
    idx_to_city.push("Shenyang".to_owned());
    idx_to_city.push("Qingdao".to_owned());
    idx_to_city.push("Xian".to_owned());
    idx_to_city.push("Zhengzhou".to_owned());
    idx_to_city.push("Wuhan".to_owned());
    idx_to_city.push("Chengdu".to_owned());
    idx_to_city.push("Chongqing".to_owned());
    idx_to_city.push("Changsanjiao".to_owned());
    idx_to_city.push("Zhusanjiao".to_owned());

    graph.add_edge(0, 1, 750);  // Beijing - Shenyang
    graph.add_edge(1, 2, 680);  // Shenyang - Qingdao
    graph.add_edge(0, 2, 800);  // Beijing - Qingdao
    graph.add_edge(0, 3, 1140);  // Beijing - Xian
    graph.add_edge(0, 4, 650);  // Beijing - Zhengzhou
    graph.add_edge(3, 4, 570);  // Xian - Zhengzhou
    graph.add_edge(4, 2, 820);  // Zhengzhou - Qingdao
    graph.add_edge(4, 5, 530);  // Zhengzhou - Wuhan
    graph.add_edge(3, 6, 840);  // Xian - Chengdu
    graph.add_edge(6, 7, 340);  // Chengdu - Chongqing
    graph.add_edge(7, 5, 900);  // Chongqing - Wuhan
    graph.add_edge(4, 8, 1200);  // Zhengzhou - Changsanjiao
    graph.add_edge(2, 8, 960);  // Qingdao - Changsanjiao
    graph.add_edge(5, 8, 680);  // Wuhan - Changsanjiao
    graph.add_edge(9, 7, 2500);  // Zhusanjiao - Chongqing
    graph.add_edge(9, 5, 1380);  // Zhusanjiao - Wuhan
    graph.add_edge(9, 8, 2600);  // Zhusanjiao - Changsanjiao

    (graph, idx_to_city)
}

/// The first position at or after `k` whose name equals `name`, if any.
pub open spec fn first_match(names: Seq<String>, name: Seq<char>, k: int) -> Option<usize>
    decreases names.len() - k,
{
    if k < 0 || k >= names.len() {
        None
    } else if names[k]@ == name {
        Some(k as usize)
    } else {
        first_match(names, name, k + 1)
    }
}

/// The node index a name resolves to: the first entry of `names` that equals it.
pub open spec fn spec_resolve(names: Seq<String>, name: Seq<char>) -> Option<usize> {
    first_match(names, name, 0)
}

/// Resolves a city name to its node index: the first position in
/// `idx_to_city` whose name equals `name`, or `None` if the name is unknown.
pub fn resolve_city(idx_to_city: &Vec<String>, name: &String) -> (r: Option<usize>)
    ensures
        r == spec_resolve(idx_to_city@, name@),
        match r {
            Some(i) => {
                &&& i < idx_to_city@.len()
                &&& idx_to_city@[i as int]@ == name@
                &&& forall|j: int| 0 <= j < i ==> (#[trigger] idx_to_city@[j])@ != name@
            },
            None => forall|j: int|
                0 <= j < idx_to_city@.len() ==> (#[trigger] idx_to_city@[j])@ != name@,
        },
{
    let mut i: usize = 0;
    while i < idx_to_city.len()
        invariant
            i <= idx_to_city@.len(),
            forall|j: int| 0 <= j < i ==> (#[trigger] idx_to_city@[j])@ != name@,
            spec_resolve(idx_to_city@, name@) == first_match(idx_to_city@, name@, i as int),
        decreases idx_to_city@.len() - i,
    {
        if idx_to_city[i].eq(name) {
            return Some(i);
        }
        i += 1;
    }
    None
}

} // verus!
