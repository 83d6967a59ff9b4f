//! Adjacency-list model of an unweighted, undirected graph.
//!
//! A graph is a `HashMap` from each vertex to the ordered sequence of its
//! neighbors. Edges are inserted symmetrically; self-loops and parallel
//! edges are permitted and preserved.

use vstd::prelude::*;
use std::collections::HashMap;

verus! {

/// The neighbors of `u` in adjacency (insertion) order; a vertex that was
/// never inserted has no neighbors.
pub open spec fn adj(g: Map<usize, Vec<usize>>, u: usize) -> Seq<usize> {
    if g.contains_key(u) {
        g[u]@
    } else {
        Seq::empty()
    }
}

/// `v` occurs in `u`'s adjacency sequence.
pub open spec fn has_edge(g: Map<usize, Vec<usize>>, u: usize, v: usize) -> bool {
    adj(g, u).contains(v)
}

/// A nonempty vertex sequence whose consecutive elements are adjacent in `g`.
pub open spec fn is_path(g: Map<usize, Vec<usize>>, p: Seq<usize>) -> bool {
    &&& p.len() > 0
    &&& forall|i: int| 0 <= i < p.len() - 1 ==> has_edge(g, #[trigger] p[i], p[i + 1])
}

/// A path in `g` that starts at `s` and ends at `t`.
pub open spec fn connects(g: Map<usize, Vec<usize>>, p: Seq<usize>, s: usize, t: usize) -> bool {
    &&& is_path(g, p)
    &&& p.first() == s
    &&& p.last() == t
}

/// Some path in `g` leads from `s` to `t`.
pub open spec fn reachable(g: Map<usize, Vec<usize>>, s: usize, t: usize) -> bool {
    exists|p: Seq<usize>| connects(g, p, s, t)
}

/// How one symmetric edge insertion changes the graph: `v` is appended to
/// `u`'s adjacency sequence and `u` to `v`'s (twice to the shared sequence
/// for a self-loop), both endpoints are now present, and every other vertex
/// keeps its adjacency unchanged.
pub open spec fn edge_added(
    g0: Map<usize, Vec<usize>>,
    g1: Map<usize, Vec<usize>>,
    u: usize,
    v: usize,
) -> bool {
    &&& g1.dom() == g0.dom().insert(u).insert(v)
    &&& (u != v ==> adj(g1, u) == adj(g0, u).push(v) && adj(g1, v) == adj(g0, v).push(u))
    &&& (u == v ==> adj(g1, u) == adj(g0, u).push(v).push(v))
    &&& forall|w: usize|
        w != u && w != v ==> #[trigger] adj(g1, w) == adj(g0, w) && (g1.contains_key(w)
            <==> g0.contains_key(w))
}

/// Inserts the undirected edge `(u, v)`: `v` is appended to `u`'s adjacency
/// sequence and `u` to `v`'s, creating empty sequences for vertices not yet
/// present. Duplicates are preserved. Afterwards each endpoint occurs in the
/// other's adjacency sequence.
pub fn add_edge(graph: &mut HashMap<usize, Vec<usize>>, u: usize, v: usize)
    ensures
        edge_added(old(graph)@, final(graph)@, u, v),
        has_edge(final(graph)@, u, v),
        has_edge(final(graph)@, v, u),
{
    let ghost g0 = graph@;
    let mut lu: Vec<usize> = match graph.remove(&u) {
        Some(l) => l,
        None => Vec::new(),
    };
    lu.push(v);
    graph.insert(u, lu);
    let mut lv: Vec<usize> = match graph.remove(&v) {
        Some(l) => l,
        None => Vec::new(),
    };
    lv.push(u);
    graph.insert(v, lv);
    proof {
        let g1 = graph@;
        assert(g1.dom() =~= g0.dom().insert(u).insert(v));
        if u != v {
            assert(adj(g1, u) =~= adj(g0, u).push(v));
            assert(adj(g1, v) =~= adj(g0, v).push(u));
            assert(adj(g1, u)[adj(g1, u).len() - 1] == v);
            assert(adj(g1, v)[adj(g1, v).len() - 1] == u);
        } else {
            assert(adj(g1, u) =~= adj(g0, u).push(v).push(v));
            assert(adj(g1, u)[adj(g1, u).len() - 1] == v);
        }
        assert(forall|w: usize|
            w != u && w != v ==> #[trigger] adj(g1, w) =~= adj(g0, w) && (g1.contains_key(w)
                <==> g0.contains_key(w)));
    }
}

} // verus!
