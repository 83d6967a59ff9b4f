//! Breadth-first shortest-path search with path reconstruction.
//!
//! `bfs` explores the graph level by level from the start vertex, keeping a
//! visited set, a FIFO frontier queue, and a parent map recording the vertex
//! each one was first discovered from. When the goal is dequeued the path is
//! rebuilt by following parent links back to the start; if the queue empties
//! first, no path exists.

use vstd::prelude::*;
use std::collections::{HashMap, HashSet, VecDeque};
use crate::graph::{adj, connects, has_edge, is_path, reachable};

verus! {

/// Every neighbor of a settled vertex has been discovered, at a level at
/// most one deeper.
spec fn expanded(
    g: Map<usize, Vec<usize>>,
    d: Map<usize, int>,
    settled: Set<usize>,
) -> bool {
    forall|u: usize, w: usize|
        #![trigger settled.contains(u), has_edge(g, u, w)]
        settled.contains(u) && has_edge(g, u, w) ==> d.contains_key(w) && d[w] <= d[u] + 1
}

/// Walking any path from a settled vertex whose level is below its position,
/// the path either ends at a discovered vertex whose level is below the path
/// length, or first leaves the settled region at a frontier vertex whose
/// level is below its position.
proof fn lemma_walk(
    g: Map<usize, Vec<usize>>,
    d: Map<usize, int>,
    settled: Set<usize>,
    frontier: Seq<usize>,
    p: Seq<usize>,
    i: int,
)
    requires
        expanded(g, d, settled),
        forall|v: usize| #[trigger] d.contains_key(v) ==> settled.contains(v) || frontier.contains(v),
        is_path(g, p),
        0 <= i < p.len(),
        settled.contains(p[i]),
        d.contains_key(p[i]),
        d[p[i]] <= i,
    ensures
        (d.contains_key(p.last()) && d[p.last()] <= p.len() - 1) || exists|j: int|
            0 <= j < p.len() && frontier.contains(#[trigger] p[j]) && d.contains_key(p[j])
                && d[p[j]] <= j,
    decreases p.len() - i,
{
    if i == p.len() - 1 {
        assert(p.last() == p[i]);
    } else {
        assert(has_edge(g, p[i], p[i + 1]));
        assert(settled.contains(p[i]));
        assert(d.contains_key(p[i + 1]) && d[p[i + 1]] <= d[p[i]] + 1);
        if settled.contains(p[i + 1]) {
            lemma_walk(g, d, settled, frontier, p, i + 1);
        } else {
            assert(frontier.contains(p[i + 1]) && d.contains_key(p[i + 1]) && d[p[i + 1]] <= i
                + 1);
        }
    }
}

/// Breadth-first search from `start` to `goal`.
///
/// Returns the shortest path from `start` to `goal` in adjacency order, or
/// `None` when no sequence of edges connects them. A returned path steps
/// along edges of the graph, begins at `start`, ends at `goal`, and no
/// connecting path is shorter. Querying a vertex against itself yields the
/// single-element path, distance zero, even for vertices absent from the
/// graph. The graph is not modified.
pub fn bfs(graph: &HashMap<usize, Vec<usize>>, start: usize, goal: usize) -> (r: Option<
    Vec<usize>,
>)
    ensures
        match r {
            Some(p) => connects(graph@, p@, start, goal) && forall|q: Seq<usize>|
                connects(graph@, q, start, goal) ==> p@.len() <= q.len(),
            None => !reachable(graph@, start, goal),
        },
        start == goal ==> (r matches Some(p) && p@ == seq![start]),
{
    let ghost g = graph@;
    let ghost keys = graph@.dom().insert(start);

    let mut visited: HashSet<usize> = HashSet::new();
    let mut queue: VecDeque<usize> = VecDeque::new();
    let mut parent_map: HashMap<usize, usize> = HashMap::new();

    queue.push_back(start);
    visited.insert(start);

    let ghost mut d: Map<usize, int> = Map::empty().insert(start, 0);
    let ghost mut settled: Set<usize> = Set::empty();

    proof {
        assert(d.dom() =~= visited@);
        assert(queue@[0] == start);
        assert(queue@.contains(start));
        assert(settled.intersect(keys) =~= Set::<usize>::empty());
    }

    while queue.len() != 0
        invariant
            g == graph@,
            keys == g.dom().insert(start),
            keys.finite(),
            d.dom() == visited@,
            d.contains_key(start) && d[start] == 0,
            forall|v: usize| #[trigger] d.contains_key(v) ==> d[v] >= 0,
            parent_map@.dom() == visited@.remove(start),
            forall|v: usize| #[trigger]
                parent_map@.contains_key(v) ==> d.contains_key(parent_map@[v]) && has_edge(
                    g,
                    parent_map@[v],
                    v,
                ) && d[parent_map@[v]] == d[v] - 1,
            forall|i: int|
                0 <= i < queue@.len() ==> d.contains_key(#[trigger] queue@[i])
                    && !settled.contains(queue@[i]),
            forall|i: int, j: int|
                #![trigger queue@[i], queue@[j]]
                0 <= i < j < queue@.len() ==> queue@[i] != queue@[j],
            forall|v: usize| #[trigger]
                d.contains_key(v) ==> settled.contains(v) || queue@.contains(v),
            forall|v: usize| #[trigger] settled.contains(v) ==> d.contains_key(v),
            forall|i: int, j: int|
                #![trigger queue@[i], queue@[j]]
                0 <= i <= j < queue@.len() ==> d[queue@[i]] <= d[queue@[j]] && d[queue@[j]]
                    <= d[queue@[i]] + 1,
            forall|u: usize, i: int|
                #![trigger settled.contains(u), queue@[i]]
                settled.contains(u) && 0 <= i < queue@.len() ==> d[u] <= d[queue@[i]],
            expanded(g, d, settled),
            !settled.contains(goal),
            settled.intersect(keys).len() <= keys.len(),
        decreases keys.len() - settled.intersect(keys).len(), queue@.len(),
    {
        let ghost q_old = queue@;
        let ghost settled_old = settled;
        let copt = queue.pop_front();
        let current = copt.unwrap();
        proof {
            assert(current == q_old[0]);
            assert(queue@ =~= q_old.drop_first());
            assert forall|i: int| 0 <= i < queue@.len() implies #[trigger] queue@[i] == q_old[i
                + 1] by {}
            assert forall|v: usize| #[trigger] d.contains_key(v) implies settled.contains(v)
                || queue@.contains(v) || v == current by {
                if !settled.contains(v) {
                    let i = choose|i: int| 0 <= i < q_old.len() && q_old[i] == v;
                    if i > 0 {
                        assert(queue@[i - 1] == v);
                    }
                }
            }
            assert forall|i: int, j: int|
                #![trigger queue@[i], queue@[j]]
                0 <= i <= j < queue@.len() implies d[queue@[i]] <= d[queue@[j]] && d[queue@[j]]
                <= d[queue@[i]] + 1 by {
                assert(queue@[i] == q_old[i + 1]);
                assert(queue@[j] == q_old[j + 1]);
                assert(d[q_old[i + 1]] <= d[q_old[j + 1]] && d[q_old[j + 1]] <= d[q_old[i + 1]]
                    + 1);
            }
            assert forall|i: int| 0 <= i < queue@.len() implies d[current] <= d[
            #[trigger] queue@[i]] && d[queue@[i]] <= d[current] + 1 by {
                assert(queue@[i] == q_old[i + 1]);
                assert(d[q_old[0]] <= d[q_old[i + 1]] && d[q_old[i + 1]] <= d[q_old[0]] + 1);
            }
            assert forall|i: int| 0 <= i < queue@.len() implies #[trigger] queue@[i]
                != current by {
                assert(queue@[i] == q_old[i + 1]);
                assert(q_old[0] != q_old[i + 1]);
            }
            assert forall|u: usize, i: int|
                #![trigger settled.contains(u), queue@[i]]
                settled.contains(u) && 0 <= i < queue@.len() implies d[u] <= d[queue@[i]] by {
                assert(queue@[i] == q_old[i + 1]);
                assert(d[u] <= d[q_old[i + 1]]);
            }
            assert forall|u: usize| #[trigger] settled.contains(u) implies d[u] <= d[current] by {
                assert(q_old[0] == current);
                assert(d[u] <= d[q_old[0]]);
            }
        }

        if current == goal {
            proof {
                assert forall|q: Seq<usize>| connects(g, q, start, goal) implies q.len() >= d[goal]
                    + 1 by {
                    assert(q.len() > 0);
                    assert(q[0] == start);
                    if settled.contains(start) {
                        lemma_walk(g, d, settled, q_old, q, 0);
                        if d.contains_key(q.last()) && d[q.last()] <= q.len() - 1 {
                            assert(q.last() == goal);
                        } else {
                            let j = choose|j: int|
                                0 <= j < q.len() && q_old.contains(#[trigger] q[j])
                                    && d.contains_key(q[j]) && d[q[j]] <= j;
                            let idx = choose|idx: int|
                                0 <= idx < q_old.len() && q_old[idx] == q[j];
                            assert(d[q_old[0]] <= d[q_old[idx]]);
                        }
                    } else {
                        assert(q_old.contains(start));
                        let idx = choose|idx: int| 0 <= idx < q_old.len() && q_old[idx] == start;
                        assert(d[q_old[0]] <= d[q_old[idx]]);
                    }
                }
            }

            // Reconstruct the path by following parent links back to the
            // start, then reverse the collected sequence.
            let mut rev: Vec<usize> = Vec::new();
            let mut node: usize = goal;
            loop
                invariant
                    g == graph@,
                    d.dom() == visited@,
                    d.contains_key(node),
                    d.contains_key(start) && d[start] == 0,
                    forall|v: usize| #[trigger] d.contains_key(v) ==> d[v] >= 0,
                    parent_map@.dom() == visited@.remove(start),
                    forall|v: usize| #[trigger]
                        parent_map@.contains_key(v) ==> d.contains_key(parent_map@[v]) && has_edge(
                            g,
                            parent_map@[v],
                            v,
                        ) && d[parent_map@[v]] == d[v] - 1,
                    d.contains_key(goal),
                    d[node] + rev@.len() == d[goal],
                    rev@.len() > 0 ==> rev@[0] == goal && has_edge(g, node, rev@.last()),
                    rev@.len() == 0 ==> node == goal,
                    forall|i: int|
                        0 <= i < rev@.len() - 1 ==> has_edge(g, #[trigger] rev@[i + 1], rev@[i]),
                ensures
                    node == start,
                    rev@.len() == d[goal],
                    rev@.len() > 0 ==> rev@[0] == goal && has_edge(g, node, rev@.last()),
                    rev@.len() == 0 ==> node == goal,
                    forall|i: int|
                        0 <= i < rev@.len() - 1 ==> has_edge(g, #[trigger] rev@[i + 1], rev@[i]),
                decreases d[node],
            {
                let popt = parent_map.get(&node);
                match popt {
                    Some(par) => {
                        let p = *par;
                        rev.push(node);
                        node = p;
                    },
                    None => {
                        proof {
                            assert(!parent_map@.contains_key(node));
                            assert(!visited@.remove(start).contains(node));
                            assert(node == start);
                        }
                        break ;
                    },
                }
            }
            rev.push(start);
            let ghost rv = rev@;

            let mut path: Vec<usize> = Vec::new();
            let mut k: usize = rev.len();
            while k > 0
                invariant
                    rev@ == rv,
                    k <= rv.len(),
                    path@.len() + k == rv.len(),
                    forall|j: int|
                        0 <= j < path@.len() ==> #[trigger] path@[j] == rv[rv.len() - 1 - j],
                decreases k,
            {
                k -= 1;
                let x = rev[k];
                path.push(x);
            }

            proof {
                let n = rv.len() as int;
                assert(n == d[goal] + 1);
                assert(rv[n - 1] == start);
                assert(rv[0] == goal);
                assert(path@.len() == n);
                assert(path@[0] == rv[n - 1]);
                assert(path@[n - 1] == rv[0]);
                assert forall|i: int| 0 <= i < n - 1 implies has_edge(
                    g,
                    #[trigger] path@[i],
                    path@[i + 1],
                ) by {
                    assert(path@[i] == rv[n - 1 - i]);
                    assert(path@[i + 1] == rv[n - 2 - i]);
                    assert(has_edge(g, rv[(n - 2 - i) + 1], rv[n - 2 - i]));
                }
                assert(is_path(g, path@));
                assert(connects(g, path@, start, goal));
                if start == goal {
                    assert(connects(g, seq![start], start, start)) by {
                        assert(seq![start].len() == 1);
                        assert(seq![start].first() == start);
                    }
                    assert(path@.len() <= 1);
                    assert(path@ =~= seq![start]);
                }
            }
            return Some(path);
        }

        let ghost dc = d[current];
        let nopt = graph.get(&current);
        match nopt {
            Some(neighbors) => {
                proof {
                    assert(g.contains_key(current));
                    assert(neighbors@ == adj(g, current));
                }
                let mut k: usize = 0;
                while k < neighbors.len()
                    invariant
                        g == graph@,
                        neighbors@ == adj(g, current),
                        k <= neighbors@.len(),
                        d.dom() == visited@,
                        d.contains_key(start) && d[start] == 0,
                        d.contains_key(current) && d[current] == dc && dc >= 0,
                        forall|v: usize| #[trigger] d.contains_key(v) ==> d[v] >= 0,
                        parent_map@.dom() == visited@.remove(start),
                        forall|v: usize| #[trigger]
                            parent_map@.contains_key(v) ==> d.contains_key(parent_map@[v])
                                && has_edge(g, parent_map@[v], v) && d[parent_map@[v]] == d[v] - 1,
                        forall|i: int|
                            0 <= i < queue@.len() ==> d.contains_key(#[trigger] queue@[i])
                                && !settled.contains(queue@[i]) && queue@[i] != current,
                        forall|i: int, j: int|
                            #![trigger queue@[i], queue@[j]]
                            0 <= i < j < queue@.len() ==> queue@[i] != queue@[j],
                        forall|v: usize| #[trigger]
                            d.contains_key(v) ==> settled.contains(v) || queue@.contains(v) || v
                                == current,
                        forall|v: usize| #[trigger] settled.contains(v) ==> d.contains_key(v),
                        !settled.contains(current),
                        forall|i: int, j: int|
                            #![trigger queue@[i], queue@[j]]
                            0 <= i <= j < queue@.len() ==> d[queue@[i]] <= d[queue@[j]]
                                && d[queue@[j]] <= d[queue@[i]] + 1,
                        forall|i: int|
                            0 <= i < queue@.len() ==> dc <= d[#[trigger] queue@[i]] && d[queue@[i]]
                                <= dc + 1,
                        forall|u: usize| #[trigger] settled.contains(u) ==> d[u] <= dc,
                        expanded(g, d, settled),
                        !settled.contains(goal),
                        current != goal,
                        forall|j: int|
                            0 <= j < k ==> d.contains_key(#[trigger] neighbors@[j])
                                && d[neighbors@[j]] <= dc + 1,
                    decreases neighbors@.len() - k,
                {
                    let nb = neighbors[k];
                    if !visited.contains(&nb) {
                        let ghost q_in = queue@;
                        let ghost d_in = d;
                        visited.insert(nb);
                        queue.push_back(nb);
                        parent_map.insert(nb, current);
                        proof {
                            d = d.insert(nb, dc + 1);
                            assert(d.dom() =~= visited@);
                            assert(parent_map@.dom() =~= visited@.remove(start));
                            assert(has_edge(g, current, nb)) by {
                                assert(adj(g, current)[k as int] == nb);
                            }
                            assert(queue@[queue@.len() - 1] == nb);
                            assert forall|v: usize| #[trigger]
                                d.contains_key(v) implies settled.contains(v) || queue@.contains(v)
                                || v == current by {
                                if v != nb && !settled.contains(v) && v != current {
                                    assert(d_in.contains_key(v));
                                    let i = choose|i: int| 0 <= i < q_in.len() && q_in[i] == v;
                                    assert(queue@[i] == v);
                                }
                            }
                        }
                    }
                    k += 1;
                }
                proof {
                    assert forall|w: usize| has_edge(g, current, w) implies d.contains_key(w)
                        && d[w] <= d[current] + 1 by {
                        let j = choose|j: int|
                            0 <= j < adj(g, current).len() && adj(g, current)[j] == w;
                        assert(d.contains_key(neighbors@[j]) && d[neighbors@[j]] <= dc + 1);
                    }
                }
            },
            None => {
                proof {
                    assert(!g.contains_key(current));
                    assert(adj(g, current) =~= Seq::empty());
                    assert forall|w: usize| has_edge(g, current, w) implies d.contains_key(w)
                        && d[w] <= d[current] + 1 by {
                        assert(false);
                    }
                }
            },
        }

        proof {
            settled = settled.insert(current);
            assert forall|u: usize, w: usize|
                settled.contains(u) && has_edge(g, u, w) implies d.contains_key(w) && d[w] <= d[u]
                + 1 by {
                if u == current {
                    assert(d.contains_key(w) && d[w] <= d[current] + 1);
                } else {
                    assert(settled_old.contains(u));
                    assert(expanded(g, d, settled_old));
                }
            }
            if keys.contains(current) {
                assert(settled.intersect(keys) =~= settled_old.intersect(keys).insert(current));
                assert(!settled_old.intersect(keys).contains(current));
                vstd::set_lib::lemma_len_subset(settled.intersect(keys), keys);
            } else {
                assert(settled.intersect(keys) =~= settled_old.intersect(keys));
            }
        }
    }

    proof {
        if reachable(g, start, goal) {
            let q = choose|q: Seq<usize>| connects(g, q, start, goal);
            assert(q[0] == start);
            assert(d.contains_key(start));
            assert(settled.contains(start));
            lemma_walk(g, d, settled, queue@, q, 0);
            if d.contains_key(q.last()) && d[q.last()] <= q.len() - 1 {
                assert(q.last() == goal);
                assert(settled.contains(goal) || queue@.contains(goal));
                assert(false);
            } else {
                let j = choose|j: int|
                    0 <= j < q.len() && queue@.contains(#[trigger] q[j]) && d.contains_key(q[j])
                        && d[q[j]] <= j;
                assert(false);
            }
        }
        if start == goal {
            assert(connects(g, seq![start], start, start)) by {
                assert(seq![start].len() == 1);
                assert(seq![start].first() == start);
            }
            assert(reachable(g, start, goal));
            assert(false);
        }
    }
    None
}

} // verus!
