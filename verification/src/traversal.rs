//! Breadth-first traversal: unweighted shortest-path distances from one
//! source vertex over an adjacency structure.
use vstd::prelude::*;
use vstd::pervasive::VecAdditionalExecFns;
use vstd::set_lib::{set_int_range, lemma_int_range, lemma_len_subset};
use std::collections::VecDeque;

use crate::graph::{AdjacencyLists, Vertex};

verus! {

/// Adjacency lists viewed as a sequence of sequences.
pub open spec fn adj_of(graph: &AdjacencyLists) -> Seq<Seq<Vertex>> {
    graph@.map_values(|l: Vec<Vertex>| l@)
}

/// Every listed neighbour lies below the vertex count.
pub open spec fn adj_wf(adj: Seq<Seq<Vertex>>) -> bool {
    forall|u: int, i: int|
        0 <= u < adj.len() && 0 <= i < adj[u].len() ==> (#[trigger] adj[u][i]) < adj.len()
}

/// A walk of exactly `k` edges leads from `s` to `v`.
pub open spec fn has_walk(adj: Seq<Seq<Vertex>>, s: int, v: int, k: nat) -> bool
    decreases k,
{
    if k == 0 {
        v == s
    } else {
        exists|u: int|
            0 <= u < adj.len() && has_walk(adj, s, u, (k - 1) as nat) && 0 <= v < adj.len()
                && (#[trigger] adj[u]).contains(v as Vertex)
    }
}

/// The recorded distance of `v`, assuming one is recorded.
pub open spec fn dval(d: Seq<Option<usize>>, v: int) -> int {
    d[v].unwrap() as int
}

/// Each entry is exact: a recorded distance is the length of some walk from
/// `s` and of no shorter one; an absent entry means no walk at all reaches
/// the vertex.
pub open spec fn dist_pinned(adj: Seq<Seq<Vertex>>, s: int, d: Seq<Option<usize>>) -> bool {
    &&& d.len() == adj.len()
    &&& forall|v: int|
        0 <= v < d.len() ==> match #[trigger] d[v] {
            Some(k) => has_walk(adj, s, v, k as nat) && (forall|j: nat|
                #![trigger has_walk(adj, s, v, j)]
                j < k ==> !has_walk(adj, s, v, j)),
            None => forall|k: nat| #![trigger has_walk(adj, s, v, k)] !has_walk(adj, s, v, k),
        }
}

/// Every recorded distance is witnessed by a walk of that length.
pub open spec fn sound_dists(adj: Seq<Seq<Vertex>>, s: int, d: Seq<Option<usize>>) -> bool {
    forall|v: int|
        0 <= v < d.len() && (#[trigger] d[v]).is_some() ==> has_walk(adj, s, v, d[v].unwrap() as nat)
}

/// Stepping one edge from a vertex with a recorded distance reaches a vertex
/// whose recorded distance exceeds it by at most one.
pub open spec fn vertex_closed(adj: Seq<Seq<Vertex>>, d: Seq<Option<usize>>, w: int) -> bool {
    forall|i: int|
        0 <= i < adj[w].len() ==> d[#[trigger] adj[w][i] as int].is_some() && dval(
            d,
            adj[w][i] as int,
        ) <= dval(d, w) + 1
}

/// Every reached vertex outside the queue has been fully expanded.
pub open spec fn settled_closed(
    adj: Seq<Seq<Vertex>>,
    d: Seq<Option<usize>>,
    q: Seq<Vertex>,
) -> bool {
    forall|w: int|
        0 <= w < adj.len() && (#[trigger] d[w]).is_some() && !q.contains(w as Vertex)
            ==> vertex_closed(adj, d, w)
}

/// The queue holds reached vertices, without repetition, in non-decreasing
/// distance order.
pub open spec fn queue_ok(d: Seq<Option<usize>>, q: Seq<Vertex>, n: int) -> bool {
    &&& forall|i: int| 0 <= i < q.len() ==> (#[trigger] q[i]) < n && d[q[i] as int].is_some()
    &&& forall|i: int, j: int| 0 <= i < j < q.len() ==> #[trigger] q[i] != #[trigger] q[j]
    &&& forall|i: int, j: int|
        0 <= i <= j < q.len() ==> dval(d, #[trigger] q[i] as int) <= dval(d, #[trigger] q[j] as int)
}

/// The ghost record of reached vertices matches the distance entries.
pub open spec fn vis_matches(d: Seq<Option<usize>>, vis: Set<int>, n: int) -> bool {
    &&& forall|x: int|
        #![trigger vis.contains(x)]
        #![trigger d[x]]
        vis.contains(x) <==> (0 <= x < n && d[x].is_some())
    &&& vis.finite()
    &&& forall|x: int| #[trigger] vis.contains(x) ==> dval(d, x) < vis.len()
}

/// Along any walk the recorded distances grow by at most one per edge: a
/// walk of length `k` ends at a reached vertex whose distance is at most `k`.
pub proof fn lemma_walk_bound(
    adj: Seq<Seq<Vertex>>,
    s: int,
    d: Seq<Option<usize>>,
    v: int,
    k: nat,
)
    requires
        adj.len() <= usize::MAX,
        adj_wf(adj),
        d.len() == adj.len(),
        0 <= s < adj.len(),
        d[s] == Some(0usize),
        settled_closed(adj, d, Seq::<Vertex>::empty()),
        has_walk(adj, s, v, k),
    ensures
        0 <= v < adj.len(),
        d[v].is_some(),
        dval(d, v) <= k,
    decreases k,
{
    if k == 0 {
    } else {
        let u = choose|u: int|
            0 <= u < adj.len() && has_walk(adj, s, u, (k - 1) as nat) && 0 <= v < adj.len()
                && (#[trigger] adj[u]).contains(v as Vertex);
        lemma_walk_bound(adj, s, d, u, (k - 1) as nat);
        let i = choose|i: int| 0 <= i < adj[u].len() && adj[u][i] == v as Vertex;
        assert(vertex_closed(adj, d, u));
        assert(d[adj[u][i] as int].is_some() && dval(d, adj[u][i] as int) <= dval(d, u) + 1);
    }
}

/// Breadth-first search: shortest-path hop counts from `start` to every
/// vertex, `None` where no walk reaches it.
pub fn bfs(start: usize, graph: &AdjacencyLists) -> (r: Vec<Option<usize>>)
    requires
        start < graph@.len(),
        adj_wf(adj_of(graph)),
    ensures
        dist_pinned(adj_of(graph), start as int, r@),
        r@[start as int] == Some(0usize),
        forall|v: int|
            0 <= v < r@.len() && (#[trigger] r@[v]).is_some() ==> dval(r@, v) < r@.len(),
{
    let n = graph.len();
    let ghost adj = adj_of(graph);
    proof {
        assert(adj.len() == n);
    }
    let mut distance: Vec<Option<usize>> = Vec::new();
    let mut i: usize = 0;
    while i < n
        invariant
            i <= n,
            distance@.len() == i,
            forall|w: int| 0 <= w < i ==> (#[trigger] distance@[w]) is None,
        decreases n - i,
    {
        distance.push(None);
        i += 1;
    }
    let mut queue: VecDeque<Vertex> = VecDeque::new();
    queue.push_back(start);
    distance.set(start, Some(0));
    let ghost mut vis: Set<int> = Set::empty().insert(start as int);
    proof {
        assert(vis.len() == 1) by {
            assert(Set::<int>::empty().len() == 0);
        }
        assert(queue@ =~= Seq::<Vertex>::empty().push(start));
        assert(queue@[0] == start);
        assert(queue@.contains(start));
        assert(forall|w: int| 0 <= w < n && w != start as int ==> distance@[w] is None);
        assert(dval(distance@, start as int) == 0);
    }
    while queue.len() > 0
        invariant
            n == adj.len(),
            n == graph@.len(),
            adj == adj_of(graph),
            adj_wf(adj),
            start < n,
            distance@.len() == n,
            distance@[start as int] == Some(0usize),
            queue_ok(distance@, queue@, n as int),
            vis_matches(distance@, vis, n as int),
            sound_dists(adj, start as int, distance@),
            settled_closed(adj, distance@, queue@),
            queue@.len() > 0 ==> dval(distance@, queue@.last() as int) <= dval(
                distance@,
                queue@[0] as int,
            ) + 1,
            queue@.len() > 0 ==> forall|w: int|
                0 <= w < n && (#[trigger] distance@[w]).is_some() ==> dval(distance@, w) <= dval(
                    distance@,
                    queue@.last() as int,
                ),
            vis.len() <= n,
        decreases n + queue@.len() - vis.len(),
    {
        let ghost pre_q = queue@;
        let vo = queue.pop_front();
        let v = vo.unwrap();
        let ghost dv = dval(distance@, v as int);
        let ghost vis0 = vis;
        proof {
            assert(forall|i: int| 0 <= i < queue@.len() ==> queue@[i] == pre_q[i + 1]);
            assert forall|q: int|
                0 <= q < queue@.len() implies dv <= dval(distance@, #[trigger] queue@[q] as int)
                && dval(distance@, queue@[q] as int) <= dv + 1 by {
                assert(pre_q[q + 1] == queue@[q]);
                assert(dval(distance@, pre_q[0] as int) <= dval(distance@, pre_q[q + 1] as int));
                assert(dval(distance@, pre_q.last() as int) <= dval(distance@, pre_q[0] as int)
                    + 1);
                assert(dval(distance@, pre_q[q + 1] as int) <= dval(
                    distance@,
                    pre_q.last() as int,
                ));
            }
            assert(!queue@.contains(v)) by {
                if queue@.contains(v) {
                    let q = choose|q: int| 0 <= q < queue@.len() && queue@[q] == v;
                    assert(pre_q[q + 1] == pre_q[0]);
                }
            }
            assert(forall|w: int|
                0 <= w < n && (#[trigger] distance@[w]).is_some() ==> dval(distance@, w) <= dv
                    + 1) by {
                assert(dval(distance@, pre_q.last() as int) <= dv + 1);
            }
            assert forall|w: int|
                0 <= w < n && (#[trigger] distance@[w]).is_some() && !queue@.contains(w as Vertex)
                && w != v as int implies vertex_closed(adj, distance@, w) by {
                assert(!pre_q.contains(w as Vertex)) by {
                    if pre_q.contains(w as Vertex) {
                        let q = choose|q: int| 0 <= q < pre_q.len() && pre_q[q] == w as Vertex;
                        assert(q != 0);
                        assert(queue@[q - 1] == w as Vertex);
                    }
                }
            }
        }
        let deg = graph[v].len();
        let mut j: usize = 0;
        while j < deg
            invariant
                n == adj.len(),
                n == graph@.len(),
                adj == adj_of(graph),
                adj_wf(adj),
                start < n,
                v < n,
                distance@.len() == n,
                distance@[start as int] == Some(0usize),
                distance@[v as int].is_some(),
                dv == dval(distance@, v as int),
                deg == adj[v as int].len(),
                j <= deg,
                queue_ok(distance@, queue@, n as int),
                !queue@.contains(v),
                forall|q: int|
                    0 <= q < queue@.len() ==> dv <= dval(distance@, #[trigger] queue@[q] as int)
                        && dval(distance@, queue@[q] as int) <= dv + 1,
                forall|w: int|
                    0 <= w < n && (#[trigger] distance@[w]).is_some() ==> dval(distance@, w) <= dv
                        + 1,
                queue@.len() > 0 ==> forall|w: int|
                    0 <= w < n && (#[trigger] distance@[w]).is_some() ==> dval(distance@, w)
                        <= dval(distance@, queue@.last() as int),
                vis_matches(distance@, vis, n as int),
                vis.len() <= n,
                queue@.len() + n - vis.len() == pre_q.len() - 1 + n - vis0.len(),
                sound_dists(adj, start as int, distance@),
                forall|w: int|
                    0 <= w < n && (#[trigger] distance@[w]).is_some() && !queue@.contains(
                        w as Vertex,
                    ) && w != v as int ==> vertex_closed(adj, distance@, w),
                forall|i2: int|
                    0 <= i2 < j ==> distance@[#[trigger] adj[v as int][i2] as int].is_some()
                        && dval(distance@, adj[v as int][i2] as int) <= dv + 1,
            decreases deg - j,
        {
            let u = graph[v][j];
            proof {
                assert(adj[v as int][j as int] == u);
                assert(u < n);
            }
            if distance[u].is_none() {
                proof {
                    lemma_int_range(0, n as int);
                    lemma_len_subset(vis, set_int_range(0, n as int));
                    assert(vis.contains(v as int));
                    assert(dv < vis.len());
                    assert(vis.len() <= n);
                }
                let dvx = match distance[v] {
                    Some(x) => x,
                    None => 0,
                };
                let ghost pre_d = distance@;
                let ghost pre_vis = vis;
                let ghost pre_qq = queue@;
                distance.set(u, Some(dvx + 1));
                queue.push_back(u);
                proof {
                    vis = vis.insert(u as int);
                    assert(!pre_vis.contains(u as int));
                    assert(vis.len() == pre_vis.len() + 1);
                    assert(vis.subset_of(set_int_range(0, n as int)));
                    lemma_len_subset(vis, set_int_range(0, n as int));
                    // Distances already recorded are untouched.
                    assert(forall|w: int|
                        0 <= w < n && w != u as int ==> distance@[w] == pre_d[w]);
                    assert(dval(distance@, u as int) == dv + 1);
                    assert(queue@ == pre_qq.push(u));
                    assert(queue@[queue@.len() - 1] == u);
                    assert(queue@.contains(u));
                    assert(forall|q: int| 0 <= q < pre_qq.len() ==> queue@[q] == pre_qq[q]);
                    // u was unreached, so it is new to the queue; and v stays out.
                    assert(!pre_qq.contains(u)) by {
                        if pre_qq.contains(u) {
                            let q = choose|q: int| 0 <= q < pre_qq.len() && pre_qq[q] == u;
                            assert(pre_d[pre_qq[q] as int].is_some());
                        }
                    }
                    assert(!queue@.contains(v)) by {
                        if queue@.contains(v) {
                            let q = choose|q: int| 0 <= q < queue@.len() && queue@[q] == v;
                            assert(q < pre_qq.len() ==> pre_qq[q] == v);
                            assert(q == queue@.len() - 1 ==> u == v);
                        }
                    }
                    assert(queue_ok(distance@, queue@, n as int)) by {
                        assert(forall|q: int|
                            0 <= q < pre_qq.len() ==> pre_qq[q] != u && dval(
                                distance@,
                                #[trigger] pre_qq[q] as int,
                            ) == dval(pre_d, pre_qq[q] as int));
                    }
                    assert forall|w: int|
                        0 <= w < n && (#[trigger] distance@[w]).is_some() && !queue@.contains(
                            w as Vertex,
                        ) && w != v as int implies vertex_closed(adj, distance@, w) by {
                        assert(w != u as int);
                        assert(!pre_qq.contains(w as Vertex)) by {
                            if pre_qq.contains(w as Vertex) {
                                let q = choose|q: int|
                                    0 <= q < pre_qq.len() && pre_qq[q] == w as Vertex;
                                assert(queue@[q] == w as Vertex);
                            }
                        }
                        assert(pre_d[w].is_some());
                        assert(vertex_closed(adj, pre_d, w));
                        assert forall|i2: int|
                            0 <= i2 < adj[w].len() implies distance@[#[trigger] adj[w][i2] as int].is_some()
                            && dval(distance@, adj[w][i2] as int) <= dval(distance@, w) + 1 by {
                            assert(pre_d[adj[w][i2] as int].is_some());
                            assert(adj[w][i2] != u);
                        }
                    }
                    // The new entry is witnessed by one more step on v's walk.
                    assert(has_walk(adj, start as int, v as int, dv as nat));
                    assert(adj[v as int].contains(u)) by {
                        assert(adj[v as int][j as int] == u);
                    }
                    assert(has_walk(adj, start as int, u as int, (dv + 1) as nat));
                }
            } else {
                proof {
                    assert(distance@[u as int].is_some());
                    assert(dval(distance@, u as int) <= dv + 1);
                }
            }
            j += 1;
        }
        proof {
            // v is now fully expanded, so the settled closure covers it too.
            assert forall|w: int|
                0 <= w < n && (#[trigger] distance@[w]).is_some() && !queue@.contains(w as Vertex)
                implies vertex_closed(adj, distance@, w) by {
                if w == v as int {
                    assert forall|i2: int|
                        0 <= i2 < adj[w].len() implies distance@[#[trigger] adj[w][i2] as int].is_some()
                        && dval(distance@, adj[w][i2] as int) <= dval(distance@, w) + 1 by {
                        assert(distance@[adj[v as int][i2] as int].is_some());
                    }
                }
            }
            if queue@.len() > 0 {
                assert(dval(distance@, queue@.last() as int) <= dval(distance@, queue@[0] as int)
                    + 1) by {
                    assert(dv <= dval(distance@, queue@[0] as int));
                    assert(dval(distance@, queue@.last() as int) <= dv + 1);
                }
                assert forall|w: int|
                    0 <= w < n && (#[trigger] distance@[w]).is_some() implies dval(distance@, w)
                    <= dval(distance@, queue@.last() as int) by {
                    assert(dv <= dval(distance@, queue@.last() as int));
                    if dval(distance@, w) == dv + 1 {
                        // A vertex one layer out was pushed after every
                        // vertex of v's layer, so the tail reaches it.
                        assert(dval(distance@, queue@.last() as int) >= dv);
                        if dval(distance@, queue@.last() as int) == dv {
                            assert(vis.contains(w));
                            assert(w != v as int);
                            if !queue@.contains(w as Vertex) {
                                assert(vertex_closed(adj, distance@, w));
                            }
                            assert(queue@.contains(w as Vertex) || dval(distance@, w) <= dv);
                            let q = choose|q: int|
                                0 <= q < queue@.len() && queue@[q] == w as Vertex;
                            assert(dval(distance@, queue@[q] as int) <= dval(
                                distance@,
                                queue@.last() as int,
                            ));
                        }
                    }
                }
            }
        }
    }
    proof {
        assert forall|v: int| 0 <= v < distance@.len() implies match #[trigger] distance@[v] {
            Some(k) => has_walk(adj, start as int, v, k as nat) && (forall|j: nat|
                #![trigger has_walk(adj, start as int, v, j)]
                j < k ==> !has_walk(adj, start as int, v, j)),
            None => forall|k: nat|
                #![trigger has_walk(adj, start as int, v, k)]
                !has_walk(adj, start as int, v, k),
        } by {
            match distance@[v] {
                Some(k) => {
                    assert(has_walk(adj, start as int, v, k as nat));
                    assert forall|j: nat|
                        #![trigger has_walk(adj, start as int, v, j)]
                        j < k implies !has_walk(adj, start as int, v, j) by {
                        if has_walk(adj, start as int, v, j) {
                            lemma_walk_bound(adj, start as int, distance@, v, j);
                        }
                    }
                },
                None => {
                    assert forall|k: nat|
                        #![trigger has_walk(adj, start as int, v, k)]
                        !has_walk(adj, start as int, v, k) by {
                        if has_walk(adj, start as int, v, k) {
                            lemma_walk_bound(adj, start as int, distance@, v, k);
                        }
                    }
                },
            }
        }
        lemma_int_range(0, n as int);
        lemma_len_subset(vis, set_int_range(0, n as int));
        assert forall|v: int|
            0 <= v < distance@.len() && (#[trigger] distance@[v]).is_some() implies dval(
            distance@,
            v,
        ) < distance@.len() by {
            assert(vis.contains(v));
        }
    }
    distance
}

} // verus!
