use crate::graph::Graph;
use vstd::prelude::*;

verus! {

use crate::graph::Edge;

/// All edges leaving `u`, as `(u, target)` pairs in adjacency-list order.
pub open spec fn edges_from(g: Graph, u: usize) -> Seq<(usize, usize)> {
    Seq::new(g.adj@[u as int]@.len(), |i: int| (u, g.adj@[u as int]@[i].to))
}

/// The `(u, target)` pairs of the first `k` adjacency entries of `u` whose
/// target is not yet visited, in adjacency-list order.
pub open spec fn unvisited_from_upto(adj: Seq<Edge>, u: usize, vis: Seq<bool>, k: int) -> Seq<
    (usize, usize),
>
    decreases k,
{
    if k <= 0 {
        Seq::empty()
    } else {
        unvisited_from_upto(adj, u, vis, k - 1) + if !vis[adj[k - 1].to as int] {
            seq![(u, adj[k - 1].to)]
        } else {
            Seq::empty()
        }
    }
}

/// All edges from `u` to a not-yet-visited neighbor, as `(u, target)` pairs.
pub open spec fn unvisited_from(g: Graph, u: usize, vis: Seq<bool>) -> Seq<(usize, usize)> {
    unvisited_from_upto(g.adj@[u as int]@, u, vis, g.adj@[u as int]@.len() as int)
}

/// Collects all edges leaving `u` as `(u, target)` pairs.
pub fn edges_from_vec(g: &Graph, u: usize) -> (r: Vec<(usize, usize)>)
    requires
        u < g.adj@.len(),
    ensures
        r@ == edges_from(*g, u),
{
    let mut r: Vec<(usize, usize)> = Vec::new();
    let mut j: usize = 0;
    let deg = g.adj[u].len();
    while j < deg
        invariant
            u < g.adj@.len(),
            deg == g.adj@[u as int]@.len(),
            j <= deg,
            r@ =~= edges_from(*g, u).take(j as int),
        decreases deg - j,
    {
        r.push((u, g.adj[u][j].to));
        proof {
            assert(r@ =~= edges_from(*g, u).take(j + 1));
        }
        j += 1;
    }
    proof {
        assert(edges_from(*g, u).take(deg as int) =~= edges_from(*g, u));
    }
    r
}

/// Collects the edges from `u` to its not-yet-visited neighbors.
pub fn unvisited_from_vec(g: &Graph, u: usize, visited: &Vec<bool>) -> (r: Vec<(usize, usize)>)
    requires
        g.wf(),
        u < g.node_count,
        visited@.len() == g.node_count,
    ensures
        r@ == unvisited_from(*g, u, visited@),
{
    let mut r: Vec<(usize, usize)> = Vec::new();
    let mut j: usize = 0;
    let deg = g.adj[u].len();
    while j < deg
        invariant
            g.wf(),
            u < g.node_count,
            visited@.len() == g.node_count,
            deg == g.adj@[u as int]@.len(),
            j <= deg,
            r@ == unvisited_from_upto(g.adj@[u as int]@, u, visited@, j as int),
        decreases deg - j,
    {
        let e = g.adj[u][j];
        if !visited[e.to] {
            let ghost old_r = r@;
            r.push((u, e.to));
            proof {
                assert(r@ =~= old_r + seq![(u, e.to)]);
            }
        } else {
            proof {
                assert(r@ =~= r@ + Seq::<(usize, usize)>::empty());
            }
        }
        j += 1;
    }
    r
}

/// Copies a list of index pairs.
pub fn copy_pairs(v: &Vec<(usize, usize)>) -> (r: Vec<(usize, usize)>)
    ensures
        r@ == v@,
{
    let mut r: Vec<(usize, usize)> = Vec::new();
    let mut i: usize = 0;
    while i < v.len()
        invariant
            i <= v@.len(),
            r@ =~= v@.take(i as int),
        decreases v@.len() - i,
    {
        r.push(v[i]);
        proof {
            assert(r@ =~= v@.take(i + 1));
        }
        i += 1;
    }
    proof {
        assert(v@.take(v@.len() as int) =~= v@);
    }
    r
}

/// Copies a list of node indices.
pub fn copy_usizes(v: &Vec<usize>) -> (r: Vec<usize>)
    ensures
        r@ == v@,
{
    let mut r: Vec<usize> = Vec::new();
    let mut i: usize = 0;
    while i < v.len()
        invariant
            i <= v@.len(),
            r@ =~= v@.take(i as int),
        decreases v@.len() - i,
    {
        r.push(v[i]);
        proof {
            assert(r@ =~= v@.take(i + 1));
        }
        i += 1;
    }
    proof {
        assert(v@.take(v@.len() as int) =~= v@);
    }
    r
}

} // verus!
