//! The forward phase of Brandes' betweenness algorithm: a breadth-first
//! traversal from one source that also records, for every vertex, the number
//! of shortest paths reaching it (saturating at `u64::MAX`), its shortest-path
//! predecessors with edge multiplicity, and the visitation order. The
//! backward dependency accumulation over these records is floating-point
//! work the caller performs.
use vstd::prelude::*;
use vstd::pervasive::VecAdditionalExecFns;
use vstd::set_lib::{set_int_range, lemma_int_range, lemma_len_subset};
use std::collections::VecDeque;

use crate::graph::{Graph, Vertex};
use crate::seq_util::occ;
use crate::traversal::{adj_of, adj_wf, dist_pinned, dval, has_walk, queue_ok, settled_closed,
    sound_dists, vertex_closed, vis_matches};

verus! {

/// One source's traversal records: visitation order, shortest-path
/// predecessor lists, shortest-path counts, and hop distances.
pub struct BrandesPass {
    pub order: Vec<Vertex>,
    pub pred: Vec<Vec<Vertex>>,
    pub sigma: Vec<u64>,
    pub dist: Vec<Option<usize>>,
}

/// Saturation at the largest `u64` value.
pub open spec fn sat64(x: int) -> int {
    if x > u64::MAX as int {
        u64::MAX as int
    } else {
        x
    }
}

/// Total of the `sigma` entries the list names.
pub open spec fn sigma_sum(list: Seq<Vertex>, sigma: Seq<u64>) -> int
    decreases list.len(),
{
    if list.len() == 0 {
        0
    } else {
        sigma_sum(list.drop_last(), sigma) + sigma[list.last() as int]
    }
}

/// One path of length zero leads from the source to itself; every other
/// count is inherited through the predecessor lists.
pub open spec fn sigma_base(w: int, s: int) -> int {
    if w == s {
        1
    } else {
        0
    }
}

/// Every count is the saturated total of its predecessors' counts, plus one
/// at the source.
pub open spec fn sigma_ok(sigma: Seq<u64>, pred: Seq<Seq<Vertex>>, s: int) -> bool {
    forall|w: int|
        0 <= w < sigma.len() ==> (#[trigger] sigma[w]) as int == sat64(
            sigma_base(w, s) + sigma_sum(pred[w], sigma),
        )
}

/// Predecessor entries name reached vertices below `n` that stand outside
/// the queue.
pub open spec fn pred_elems_ok(
    pred: Seq<Seq<Vertex>>,
    d: Seq<Option<usize>>,
    q: Seq<Vertex>,
    n: int,
) -> bool {
    forall|w: int, i: int|
        0 <= w < pred.len() && 0 <= i < pred[w].len() ==> (#[trigger] pred[w][i]) < n && d[pred[w][i] as int].is_some()
            && !q.contains(pred[w][i])
}

/// The final pin on the predecessor lists: `pred[w]` carries `v` exactly as
/// often as `outedges[v]` carries `w`, whenever that edge advances a
/// shortest path by one hop; and never otherwise.
pub open spec fn pred_occ_ok(
    adj: Seq<Seq<Vertex>>,
    d: Seq<Option<usize>>,
    pred: Seq<Seq<Vertex>>,
) -> bool {
    forall|w: Vertex, v: Vertex|
        w < pred.len() ==> #[trigger] occ(pred[w as int], v) == if v < adj.len() && d[v as int].is_some()
            && d[w as int].is_some() && dval(d, v as int) + 1 == dval(d, w as int) {
            occ(adj[v as int], w)
        } else {
            0nat
        }
}

pub proof fn lemma_sigma_sum_congr(list: Seq<Vertex>, s1: Seq<u64>, s2: Seq<u64>)
    requires
        forall|i: int| 0 <= i < list.len() ==> s1[(#[trigger] list[i]) as int] == s2[list[i] as int],
    ensures
        sigma_sum(list, s1) == sigma_sum(list, s2),
    decreases list.len(),
{
    if list.len() > 0 {
        assert(forall|i: int| 0 <= i < list.len() - 1 ==> list.drop_last()[i] == list[i]);
        lemma_sigma_sum_congr(list.drop_last(), s1, s2);
    }
}

pub proof fn lemma_sigma_sum_push(list: Seq<Vertex>, sigma: Seq<u64>, x: Vertex)
    ensures
        sigma_sum(list.push(x), sigma) == sigma_sum(list, sigma) + sigma[x as int],
{
    assert(list.push(x).drop_last() =~= list);
}

pub proof fn lemma_sigma_sum_nonneg(list: Seq<Vertex>, sigma: Seq<u64>)
    requires
        forall|i: int| 0 <= i < list.len() ==> (#[trigger] list[i]) < sigma.len(),
    ensures
        sigma_sum(list, sigma) >= 0,
    decreases list.len(),
{
    if list.len() > 0 {
        assert(forall|i: int| 0 <= i < list.len() - 1 ==> list.drop_last()[i] == list[i]);
        lemma_sigma_sum_nonneg(list.drop_last(), sigma);
    }
}

impl Graph {
    /// The forward pass of Brandes' algorithm from source `s`: distances are
    /// exactly the least walk lengths; `order` lists the reached vertices in
    /// non-decreasing distance order starting at `s`; `pred` carries each
    /// shortest-path edge with its multiplicity; `sigma` counts shortest
    /// paths, saturating at `u64::MAX`, and is positive exactly on reached
    /// vertices.
    pub fn brandes_forward(graph: &Graph, s: usize) -> (r: BrandesPass)
        requires
            graph.wf(),
            s < graph.n,
        ensures
            r.dist@.len() == graph.n,
            r.sigma@.len() == graph.n,
            r.pred@.len() == graph.n,
            dist_pinned(adj_of(&graph.outedges), s as int, r.dist@),
            r.dist@[s as int] == Some(0usize),
            forall|i: int| 0 <= i < r.order@.len() ==> (#[trigger] r.order@[i]) < graph.n,
            forall|i: int, j: int|
                0 <= i < j < r.order@.len() ==> #[trigger] r.order@[i] != #[trigger] r.order@[j],
            forall|i: int, j: int|
                0 <= i <= j < r.order@.len() ==> dval(r.dist@, #[trigger] r.order@[i] as int)
                    <= dval(r.dist@, #[trigger] r.order@[j] as int),
            r.order@.len() > 0 && r.order@[0] == s,
            forall|x: int|
                0 <= x < graph.n ==> ((#[trigger] r.dist@[x]).is_some() <==> r.order@.contains(
                    x as Vertex,
                )),
            pred_occ_ok(adj_of(&graph.outedges), r.dist@, adj_of(&r.pred)),
            pred_elems_ok(adj_of(&r.pred), r.dist@, Seq::<Vertex>::empty(), graph.n as int),
            sigma_ok(r.sigma@, adj_of(&r.pred), s as int),
            r.sigma@[s as int] == 1,
            adj_of(&r.pred)[s as int].len() == 0,
            forall|x: int|
                0 <= x < graph.n ==> ((#[trigger] r.sigma@[x]) >= 1 <==> r.dist@[x].is_some()),
    {
        let ghost adj = adj_of(&graph.outedges);
        let n = graph.outedges.len();
        proof {
            assert(n == graph.n);
            assert(adj.len() == n);
            assert forall|u: int, i: int|
                0 <= u < adj.len() && 0 <= i < adj[u].len() implies (#[trigger] adj[u][i])
                < adj.len() by {
                assert(adj[u] == graph.outedges@[u]@);
            }
        }
        let mut dist: Vec<Option<usize>> = Vec::new();
        let mut sigma: Vec<u64> = Vec::new();
        let mut pred: Vec<Vec<Vertex>> = Vec::new();
        let mut order: Vec<Vertex> = Vec::new();
        let mut i: usize = 0;
        while i < n
            invariant
                i <= n,
                dist@.len() == i,
                sigma@.len() == i,
                pred@.len() == i,
                forall|w: int| 0 <= w < i ==> (#[trigger] dist@[w]) is None,
                forall|w: int| 0 <= w < i ==> (#[trigger] sigma@[w]) == 0,
                forall|w: int| 0 <= w < i ==> (#[trigger] pred@[w])@.len() == 0,
            decreases n - i,
        {
            dist.push(None);
            sigma.push(0);
            pred.push(Vec::new());
            i += 1;
        }
        dist.set(s, Some(0));
        sigma.set(s, 1);
        let mut queue: VecDeque<Vertex> = VecDeque::new();
        queue.push_back(s);
        let ghost mut vis: Set<int> = Set::empty().insert(s as int);
        proof {
            assert(vis.len() == 1) by {
                assert(Set::<int>::empty().len() == 0);
            }
            assert(queue@ =~= Seq::<Vertex>::empty().push(s));
            assert(queue@[0] == s);
            assert(queue@.contains(s));
            assert(forall|w: int| 0 <= w < n && w != s as int ==> dist@[w] is None);
            assert(dval(dist@, s as int) == 0);
            assert forall|w: int| 0 <= w < n implies (#[trigger] sigma@[w]) as int == sat64(
                sigma_base(w, s as int) + sigma_sum(adj_of(&pred)[w], sigma@),
            ) by {
                assert(adj_of(&pred)[w] == pred@[w]@);
                assert(pred@[w]@.len() == 0);
            }
        }
        while queue.len() > 0
            invariant
                n == adj.len(),
                n == graph.outedges@.len(),
                adj == adj_of(&graph.outedges),
                adj_wf(adj),
                s < n,
                dist@.len() == n,
                sigma@.len() == n,
                pred@.len() == n,
                dist@[s as int] == Some(0usize),
                sigma@[s as int] == 1,
                pred@[s as int]@.len() == 0,
                queue_ok(dist@, queue@, n as int),
                vis_matches(dist@, vis, n as int),
                vis.len() <= n,
                sound_dists(adj, s as int, dist@),
                settled_closed(adj, dist@, queue@),
                queue@.len() > 0 ==> dval(dist@, queue@.last() as int) <= dval(
                    dist@,
                    queue@[0] as int,
                ) + 1,
                queue@.len() > 0 ==> forall|w: int|
                    0 <= w < n && (#[trigger] dist@[w]).is_some() ==> dval(dist@, w) <= dval(
                        dist@,
                        queue@.last() as int,
                    ),
                queue@.len() > 0 ==> forall|x: int|
                    0 <= x < n && (#[trigger] dist@[x]).is_some() && !queue@.contains(x as Vertex)
                        ==> dval(dist@, x) <= dval(dist@, queue@[0] as int),
                forall|i2: int| 0 <= i2 < order@.len() ==> (#[trigger] order@[i2]) < n,
                forall|i2: int, j2: int|
                    0 <= i2 < j2 < order@.len() ==> #[trigger] order@[i2] != #[trigger] order@[j2],
                forall|i2: int, j2: int|
                    0 <= i2 <= j2 < order@.len() ==> dval(dist@, #[trigger] order@[i2] as int)
                        <= dval(dist@, #[trigger] order@[j2] as int),
                order@.len() > 0 ==> order@[0] == s,
                forall|x: int|
                    0 <= x < n ==> (((#[trigger] dist@[x]).is_some() && !queue@.contains(
                        x as Vertex,
                    )) <==> order@.contains(x as Vertex)),
                pred_elems_ok(adj_of(&pred), dist@, queue@, n as int),
                sigma_ok(sigma@, adj_of(&pred), s as int),
                forall|x: int|
                    0 <= x < n ==> ((#[trigger] sigma@[x]) >= 1 <==> dist@[x].is_some()),
                forall|w: Vertex, x: Vertex|
                    w < n ==> #[trigger] occ(adj_of(&pred)[w as int], x) == (
                    if x < n && dist@[x as int].is_some() && !queue@.contains(x) && dist@[w as int].is_some()
                        && dval(dist@, x as int) + 1 == dval(dist@, w as int) {
                        occ(adj[x as int], w)
                    } else {
                        0nat
                    }),
            decreases n + queue@.len() - vis.len(),
        {
            let ghost pre_q = queue@;
            let vo = queue.pop_front();
            let v = vo.unwrap();
            let ghost o0 = order@;
            order.push(v);
            let ghost dv = dval(dist@, v as int);
            let ghost vis0 = vis;
            proof {
                assert(forall|i2: int| 0 <= i2 < queue@.len() ==> queue@[i2] == pre_q[i2 + 1]);
                assert forall|q: int|
                    0 <= q < queue@.len() implies dv <= dval(dist@, #[trigger] queue@[q] as int)
                    && dval(dist@, queue@[q] as int) <= dv + 1 by {
                    assert(pre_q[q + 1] == queue@[q]);
                    assert(dval(dist@, pre_q[0] as int) <= dval(dist@, pre_q[q + 1] as int));
                    assert(dval(dist@, pre_q.last() as int) <= dval(dist@, pre_q[0] as int) + 1);
                    assert(dval(dist@, pre_q[q + 1] as int) <= dval(dist@, pre_q.last() as int));
                }
                assert(!queue@.contains(v)) by {
                    if queue@.contains(v) {
                        let q = choose|q: int| 0 <= q < queue@.len() && queue@[q] == v;
                        assert(pre_q[q + 1] == pre_q[0]);
                    }
                }
                assert(forall|w: int|
                    0 <= w < n && (#[trigger] dist@[w]).is_some() ==> dval(dist@, w) <= dv + 1) by {
                    assert(dval(dist@, pre_q.last() as int) <= dv + 1);
                }
                // Vertices settled earlier sit at or below v's layer.
                assert forall|x: int|
                    0 <= x < n && (#[trigger] dist@[x]).is_some() && !queue@.contains(x as Vertex)
                    implies dval(dist@, x) <= dv by {
                    if x != v as int {
                        assert(!pre_q.contains(x as Vertex)) by {
                            if pre_q.contains(x as Vertex) {
                                let q = choose|q: int|
                                    0 <= q < pre_q.len() && pre_q[q] == x as Vertex;
                                assert(q != 0);
                                assert(queue@[q - 1] == x as Vertex);
                            }
                        }
                    }
                }
                assert forall|w: int|
                    0 <= w < n && (#[trigger] dist@[w]).is_some() && !queue@.contains(w as Vertex)
                    && w != v as int implies vertex_closed(adj, dist@, w) by {
                    assert(!pre_q.contains(w as Vertex)) by {
                        if pre_q.contains(w as Vertex) {
                            let q = choose|q: int| 0 <= q < pre_q.len() && pre_q[q] == w as Vertex;
                            assert(q != 0);
                            assert(queue@[q - 1] == w as Vertex);
                        }
                    }
                }
                // v joins the order: it was in the queue, so not yet listed.
                assert(order@ == o0.push(v));
                assert(forall|i2: int| 0 <= i2 < o0.len() ==> order@[i2] == o0[i2]);
                assert(order@[order@.len() - 1] == v);
                assert(!o0.contains(v)) by {
                    if o0.contains(v) {
                        assert(pre_q[0] == v);
                        assert(pre_q.contains(v));
                    }
                }
                assert forall|x: int|
                    0 <= x < n implies (((#[trigger] dist@[x]).is_some() && !queue@.contains(
                    x as Vertex,
                )) <==> order@.contains(x as Vertex)) by {
                    if x == v as int {
                        assert(order@[order@.len() - 1] == v);
                        assert(order@.contains(x as Vertex));
                    } else {
                        if dist@[x].is_some() && !queue@.contains(x as Vertex) {
                            assert(!pre_q.contains(x as Vertex)) by {
                                if pre_q.contains(x as Vertex) {
                                    let q = choose|q: int|
                                        0 <= q < pre_q.len() && pre_q[q] == x as Vertex;
                                    assert(q != 0);
                                    assert(queue@[q - 1] == x as Vertex);
                                }
                            }
                            assert(o0.contains(x as Vertex));
                            let q = choose|q: int|
                                0 <= q < o0.len() && #[trigger] o0[q] == x as Vertex;
                            assert(order@[q] == x as Vertex);
                        }
                        if order@.contains(x as Vertex) {
                            let q = choose|q: int|
                                0 <= q < order@.len() && #[trigger] order@[q] == x as Vertex;
                            assert(q < order@.len() - 1);
                            assert(o0[q] == x as Vertex);
                            assert(o0.contains(x as Vertex));
                            assert(!pre_q.contains(x as Vertex));
                            assert(!queue@.contains(x as Vertex)) by {
                                if queue@.contains(x as Vertex) {
                                    let q2 = choose|q2: int|
                                        0 <= q2 < queue@.len() && queue@[q2] == x as Vertex;
                                    assert(pre_q[q2 + 1] == x as Vertex);
                                }
                            }
                        }
                    }
                }
            }
            let dvx = match dist[v] {
                Some(x) => x,
                None => 0,
            };
            let deg = graph.outedges[v].len();
            let mut j: usize = 0;
            while j < deg
                invariant
                    n == adj.len(),
                    n == graph.outedges@.len(),
                    adj == adj_of(&graph.outedges),
                    adj_wf(adj),
                    s < n,
                    v < n,
                    dist@.len() == n,
                    sigma@.len() == n,
                    pred@.len() == n,
                    dist@[s as int] == Some(0usize),
                    sigma@[s as int] == 1,
                    pred@[s as int]@.len() == 0,
                    dist@[v as int].is_some(),
                    dv == dval(dist@, v as int),
                    dvx as int == dv,
                    deg == adj[v as int].len(),
                    j <= deg,
                    queue_ok(dist@, queue@, n as int),
                    !queue@.contains(v),
                    forall|q: int|
                        0 <= q < queue@.len() ==> dv <= dval(dist@, #[trigger] queue@[q] as int)
                            && dval(dist@, queue@[q] as int) <= dv + 1,
                    forall|w: int|
                        0 <= w < n && (#[trigger] dist@[w]).is_some() ==> dval(dist@, w) <= dv + 1,
                    queue@.len() > 0 ==> forall|w: int|
                        0 <= w < n && (#[trigger] dist@[w]).is_some() ==> dval(dist@, w) <= dval(
                            dist@,
                            queue@.last() as int,
                        ),
                    forall|x: int|
                        0 <= x < n && (#[trigger] dist@[x]).is_some() && !queue@.contains(
                            x as Vertex,
                        ) ==> dval(dist@, x) <= dv,
                    vis_matches(dist@, vis, n as int),
                    vis.len() <= n,
                    queue@.len() + n - vis.len() == pre_q.len() - 1 + n - vis0.len(),
                    sound_dists(adj, s as int, dist@),
                    forall|w: int|
                        0 <= w < n && (#[trigger] dist@[w]).is_some() && !queue@.contains(
                            w as Vertex,
                        ) && w != v as int ==> vertex_closed(adj, dist@, w),
                    forall|i2: int|
                        0 <= i2 < j ==> dist@[#[trigger] adj[v as int][i2] as int].is_some()
                            && dval(dist@, adj[v as int][i2] as int) <= dv + 1,
                    forall|i2: int| 0 <= i2 < order@.len() ==> (#[trigger] order@[i2]) < n,
                    forall|i2: int, j2: int|
                        0 <= i2 < j2 < order@.len() ==> #[trigger] order@[i2]
                            != #[trigger] order@[j2],
                    forall|i2: int, j2: int|
                        0 <= i2 <= j2 < order@.len() ==> dval(dist@, #[trigger] order@[i2] as int)
                            <= dval(dist@, #[trigger] order@[j2] as int),
                    order@.len() > 0 && order@[0] == s,
                    forall|x: int|
                        0 <= x < n ==> (((#[trigger] dist@[x]).is_some() && !queue@.contains(
                            x as Vertex,
                        )) <==> order@.contains(x as Vertex)),
                    pred_elems_ok(adj_of(&pred), dist@, queue@, n as int),
                    sigma_ok(sigma@, adj_of(&pred), s as int),
                    forall|x: int|
                        0 <= x < n ==> ((#[trigger] sigma@[x]) >= 1 <==> dist@[x].is_some()),
                    forall|w: Vertex, x: Vertex|
                        w < n && x != v ==> #[trigger] occ(adj_of(&pred)[w as int], x) == (
                        if x < n && dist@[x as int].is_some() && !queue@.contains(x)
                            && dist@[w as int].is_some() && dval(dist@, x as int) + 1 == dval(
                            dist@,
                            w as int,
                        ) {
                            occ(adj[x as int], w)
                        } else {
                            0nat
                        }),
                    forall|w: Vertex|
                        w < n ==> #[trigger] occ(adj_of(&pred)[w as int], v) == (
                        if dist@[w as int].is_some() && dv + 1 == dval(dist@, w as int) {
                            occ(adj[v as int].take(j as int), w)
                        } else {
                            0nat
                        }),
                decreases deg - j,
            {
                let w = graph.outedges[v][j];
                let ghost d0 = dist@;
                let ghost q0 = queue@;
                let ghost p0 = adj_of(&pred);
                let ghost s0g = sigma@;
                proof {
                    assert(adj[v as int][j as int] == w);
                    assert(w < n);
                    assert(forall|k: int| 0 <= k < n ==> p0[k] == pred@[k]@);
                }
                let fresh = dist[w].is_none();
                if fresh {
                    proof {
                        lemma_int_range(0, n as int);
                        lemma_len_subset(vis, set_int_range(0, n as int));
                        assert(vis.contains(v as int));
                        assert(dv < vis.len());
                        assert(vis.len() <= n);
                    }
                    dist.set(w, Some(dvx + 1));
                    queue.push_back(w);
                    proof {
                        vis = vis.insert(w as int);
                        assert(!d0[w as int].is_some());
                        assert(vis.subset_of(set_int_range(0, n as int)));
                        lemma_len_subset(vis, set_int_range(0, n as int));
                        assert(forall|x: int| 0 <= x < n && x != w as int ==> dist@[x] == d0[x]);
                        assert(dval(dist@, w as int) == dv + 1);
                        assert(queue@ == q0.push(w));
                        assert(queue@[queue@.len() - 1] == w);
                        assert(queue@.contains(w));
                        assert(forall|q: int| 0 <= q < q0.len() ==> queue@[q] == q0[q]);
                        assert(!q0.contains(w)) by {
                            if q0.contains(w) {
                                let q = choose|q: int| 0 <= q < q0.len() && q0[q] == w;
                                assert(d0[q0[q] as int].is_some());
                            }
                        }
                        assert forall|x: Vertex|
                            x != w implies (queue@.contains(x) <==> q0.contains(x)) by {
                            if queue@.contains(x) {
                                let q = choose|q: int| 0 <= q < queue@.len() && queue@[q] == x;
                                assert(q < q0.len());
                                assert(q0[q] == x);
                            }
                            if q0.contains(x) {
                                let q = choose|q: int| 0 <= q < q0.len() && q0[q] == x;
                                assert(queue@[q] == x);
                            }
                        }
                        assert(!queue@.contains(v));
                        assert(queue_ok(dist@, queue@, n as int)) by {
                            assert(forall|q: int|
                                0 <= q < q0.len() ==> q0[q] != w && dval(
                                    dist@,
                                    #[trigger] q0[q] as int,
                                ) == dval(d0, q0[q] as int));
                        }
                        assert forall|x: int|
                            0 <= x < n && (#[trigger] dist@[x]).is_some() && !queue@.contains(
                            x as Vertex,
                        ) && x != v as int implies vertex_closed(adj, dist@, x) by {
                            assert(x != w as int);
                            assert(!q0.contains(x as Vertex));
                            assert(d0[x].is_some());
                            assert(vertex_closed(adj, d0, x));
                            assert forall|i2: int|
                                0 <= i2 < adj[x].len() implies dist@[#[trigger] adj[x][i2] as int].is_some()
                                && dval(dist@, adj[x][i2] as int) <= dval(dist@, x) + 1 by {
                                assert(d0[adj[x][i2] as int].is_some());
                                assert(adj[x][i2] != w);
                            }
                        }
                        assert(has_walk(adj, s as int, v as int, dv as nat));
                        assert(adj[v as int].contains(w)) by {
                            assert(adj[v as int][j as int] == w);
                        }
                        assert(has_walk(adj, s as int, w as int, (dv + 1) as nat));
                        // Order and predecessor entries never name a vertex
                        // that was unreached a moment ago.
                        assert(!order@.contains(w)) by {
                            if order@.contains(w) {
                                assert(d0[w as int].is_some());
                            }
                        }
                        assert forall|x: int|
                            0 <= x < n implies (((#[trigger] dist@[x]).is_some()
                            && !queue@.contains(x as Vertex)) <==> order@.contains(
                            x as Vertex,
                        )) by {
                            if x == w as int {
                                assert(queue@.contains(w));
                            } else {
                                assert(dist@[x] == d0[x]);
                            }
                        }
                        assert forall|k: int, i2: int|
                            0 <= k < p0.len() && 0 <= i2 < p0[k].len() implies (
                        #[trigger] p0[k][i2]) < n && dist@[p0[k][i2] as int].is_some()
                            && !queue@.contains(p0[k][i2]) by {
                            assert(d0[p0[k][i2] as int].is_some());
                            assert(p0[k][i2] != w);
                            assert(!q0.contains(p0[k][i2]));
                        }
                    }
                }
                let hit = match dist[w] {
                    Some(d2) => d2 == dvx + 1,
                    None => false,
                };
                let ghost d1 = dist@;
                let ghost q1 = queue@;
                proof {
                    assert(d1[w as int].is_some());
                    if !fresh {
                        assert(d1 == d0 && q1 == q0);
                    }
                    assert(hit <==> dval(d1, w as int) == dv + 1);
                    if hit {
                        // A vertex one layer beyond v still waits in the queue.
                        assert(queue@.contains(w)) by {
                            if !queue@.contains(w) {
                                assert(dval(d1, w as int) <= dv);
                            }
                        }
                        assert(w != s) by {
                            assert(dval(d1, s as int) == 0);
                        }
                        assert(w != v);
                    }
                }
                if hit {
                    let sv = sigma[v];
                    let sw = sigma[w];
                    let snew = if sw > u64::MAX - sv {
                        u64::MAX
                    } else {
                        sw + sv
                    };
                    sigma.set(w, snew);
                    pred[w].push(v);
                    proof {
                        let p2 = adj_of(&pred);
                        let s2 = sigma@;
                        let s0 = s0g;
                        assert(sw == s0[w as int]);
                        assert(s2 == s0.update(w as int, snew));
                        assert(forall|x: int| 0 <= x < n && x != w as int ==> s2[x] == s0[x]);
                        assert(forall|k: int|
                            0 <= k < n && k != w as int ==> p2[k] == p0[k]);
                        assert(p2[w as int] == p0[w as int].push(v));
                        assert(sv >= 1);
                        assert(snew as int == sat64(sw + sv));
                        // Every vertex a predecessor list names sits at or
                        // below v's layer, so none of them is w.
                        assert forall|k: int, i2: int|
                            0 <= k < n && 0 <= i2 < p0[k].len() implies (#[trigger] p0[k][i2])
                            != w && p0[k][i2] < n by {
                            assert(d1[p0[k][i2] as int].is_some());
                            assert(!q1.contains(p0[k][i2]));
                            assert(dval(d1, p0[k][i2] as int) <= dv);
                        }
                        assert(v != w);
                        assert forall|w2: int|
                            0 <= w2 < n implies (#[trigger] s2[w2]) as int == sat64(
                            sigma_base(w2, s as int) + sigma_sum(p2[w2], s2),
                        ) by {
                            if w2 != w as int {
                                lemma_sigma_sum_congr(p2[w2], s0, s2);
                                assert(sigma_sum(p2[w2], s0) == sigma_sum(p0[w2], s0));
                                assert(s0[w2] as int == sat64(
                                    sigma_base(w2, s as int) + sigma_sum(p0[w2], s0),
                                ));
                            } else {
                                lemma_sigma_sum_nonneg(p0[w as int], s0);
                                lemma_sigma_sum_push(p0[w as int], s2, v);
                                lemma_sigma_sum_congr(p0[w as int], s0, s2);
                                assert(sigma_sum(p2[w2], s2) == sigma_sum(p0[w as int], s0)
                                    + sv);
                                assert(sw as int == sat64(sigma_sum(p0[w as int], s0)));
                            }
                        }
                        // The new predecessor entry is v itself: reached,
                        // settled, below the vertex count.
                        assert forall|k: int, i2: int|
                            0 <= k < p2.len() && 0 <= i2 < p2[k].len() implies (
                        #[trigger] p2[k][i2]) < n && d1[p2[k][i2] as int].is_some()
                            && !q1.contains(p2[k][i2]) by {
                            if k == w as int && i2 == p2[k].len() - 1 {
                                assert(p2[k][i2] == v);
                            } else {
                                assert(p2[k][i2] == p0[k][i2]);
                            }
                        }
                        assert(snew >= 1);
                    }
                }
                let ghost p2 = adj_of(&pred);
                proof {
                    // Multiplicity bookkeeping for this edge occurrence.
                    assert(adj[v as int].take(j + 1).drop_last() =~= adj[v as int].take(j as int));
                    assert forall|w2: Vertex| w2 < n implies #[trigger] occ(
                        adj[v as int].take(j + 1),
                        w2,
                    ) == occ(adj[v as int].take(j as int), w2) + (if w2 == w {
                        1nat
                    } else {
                        0nat
                    }) by {
                        crate::seq_util::lemma_occ_take_step(adj[v as int], j as int, w2);
                    }
                    if hit {
                        assert forall|w2: Vertex, x: Vertex|
                            w2 < n && x != v implies #[trigger] occ(p2[w2 as int], x) == occ(
                            p0[w2 as int],
                            x,
                        ) by {
                            if w2 == w {
                                crate::seq_util::lemma_occ_push(p0[w as int], v, x);
                            }
                        }
                        assert forall|w2: Vertex| w2 < n implies #[trigger] occ(
                            p2[w2 as int],
                            v,
                        ) == occ(p0[w2 as int], v) + (if w2 == w {
                            1nat
                        } else {
                            0nat
                        }) by {
                            if w2 == w {
                                crate::seq_util::lemma_occ_push(p0[w as int], v, v);
                            }
                        }
                    } else {
                        assert(forall|w2: Vertex, x: Vertex|
                            w2 < n ==> #[trigger] occ(p2[w2 as int], x) == occ(p0[w2 as int], x));
                    }
                    if fresh {
                        // Nothing listed an edge into the newly reached
                        // vertex: neither v so far, nor any settled vertex.
                        assert(occ(adj[v as int].take(j as int), w) == 0) by {
                            assert forall|i2: int|
                                0 <= i2 < adj[v as int].take(j as int).len() implies (
                            #[trigger] adj[v as int].take(j as int)[i2]) != w by {
                                assert(adj[v as int].take(j as int)[i2] == adj[v as int][i2]);
                                assert(d0[adj[v as int][i2] as int].is_some());
                            }
                            crate::seq_util::lemma_occ_zero(adj[v as int].take(j as int), w);
                        }
                        assert forall|x: Vertex|
                            x < n && d1[x as int].is_some() && !q1.contains(x) && x != v implies
                            occ(adj[x as int], w) == 0 by {
                            assert(x != w);
                            assert(d0[x as int].is_some());
                            assert(!q0.contains(x));
                            assert(vertex_closed(adj, d0, x as int));
                            assert forall|i2: int|
                                0 <= i2 < adj[x as int].len() implies (
                            #[trigger] adj[x as int][i2]) != w by {
                                assert(d0[adj[x as int][i2] as int].is_some());
                            }
                            crate::seq_util::lemma_occ_zero(adj[x as int], w);
                        }
                    }
                    // Re-establish the multiplicity invariant for sources
                    // other than v.
                    assert forall|w2: Vertex, x: Vertex|
                        w2 < n && x != v implies #[trigger] occ(p2[w2 as int], x) == (
                        if x < n && d1[x as int].is_some() && !q1.contains(x)
                            && d1[w2 as int].is_some() && dval(d1, x as int) + 1 == dval(
                            d1,
                            w2 as int,
                        ) {
                            occ(adj[x as int], w2)
                        } else {
                            0nat
                        }) by {
                        assert(occ(p2[w2 as int], x) == occ(p0[w2 as int], x));
                        if fresh {
                            if w2 == w {
                                assert(occ(p0[w as int], x) == 0);
                                if x < n && d1[x as int].is_some() && !q1.contains(x)
                                    && dval(d1, x as int) + 1 == dval(d1, w as int) {
                                    assert(x != w);
                                    assert(occ(adj[x as int], w) == 0);
                                }
                            } else {
                                if x == w {
                                    assert(q1.contains(x));
                                    assert(occ(p0[w2 as int], x) == 0);
                                } else if x < n {
                                    assert(d1[x as int] == d0[x as int]);
                                    assert(d1[w2 as int] == d0[w2 as int]);
                                    assert(q1.contains(x) <==> q0.contains(x));
                                }
                            }
                        }
                    }
                    // And for v itself, over one more scanned entry.
                    assert forall|w2: Vertex| w2 < n implies #[trigger] occ(p2[w2 as int], v)
                        == (if d1[w2 as int].is_some() && dv + 1 == dval(d1, w2 as int) {
                        occ(adj[v as int].take(j + 1), w2)
                    } else {
                        0nat
                    }) by {
                        if w2 == w {
                            if hit {
                                assert(occ(p2[w as int], v) == occ(p0[w as int], v) + 1);
                                if fresh {
                                    assert(occ(p0[w as int], v) == 0);
                                    assert(occ(adj[v as int].take(j as int), w) == 0);
                                } else {
                                    assert(occ(p0[w as int], v) == occ(
                                        adj[v as int].take(j as int),
                                        w,
                                    ));
                                }
                            } else {
                                assert(!(dv + 1 == dval(d1, w as int)));
                                assert(occ(p2[w as int], v) == occ(p0[w as int], v));
                            }
                        } else {
                            assert(occ(p2[w2 as int], v) == occ(p0[w2 as int], v));
                            if w2 < n && d1[w2 as int].is_some() && dv + 1 == dval(
                                d1,
                                w2 as int,
                            ) {
                                assert(w2 != w);
                                assert(d0[w2 as int].is_some());
                            }
                        }
                    }
                }
                j += 1;
            }
            proof {
                // v is fully expanded: the settled closure covers it, the
                // scan of its list is complete, and the queue keeps its
                // layered shape.
                assert(adj[v as int].take(deg as int) =~= adj[v as int]);
                assert forall|w: int|
                    0 <= w < n && (#[trigger] dist@[w]).is_some() && !queue@.contains(w as Vertex)
                    implies vertex_closed(adj, dist@, w) by {
                    if w == v as int {
                        assert forall|i2: int|
                            0 <= i2 < adj[w].len() implies dist@[#[trigger] adj[w][i2] as int].is_some()
                            && dval(dist@, adj[w][i2] as int) <= dval(dist@, w) + 1 by {
                            assert(dist@[adj[v as int][i2] as int].is_some());
                        }
                    }
                }
                if queue@.len() > 0 {
                    assert(dval(dist@, queue@.last() as int) <= dval(dist@, queue@[0] as int)
                        + 1) by {
                        assert(dv <= dval(dist@, queue@[0] as int));
                        assert(dval(dist@, queue@.last() as int) <= dv + 1);
                    }
                }
            }
        }
        proof {
            assert forall|v: int| 0 <= v < dist@.len() implies match #[trigger] dist@[v] {
                Some(k) => has_walk(adj, s as int, v, k as nat) && (forall|j: nat|
                    #![trigger has_walk(adj, s as int, v, j)]
                    j < k ==> !has_walk(adj, s as int, v, j)),
                None => forall|k: nat|
                    #![trigger has_walk(adj, s as int, v, k)]
                    !has_walk(adj, s as int, v, k),
            } by {
                match dist@[v] {
                    Some(k) => {
                        assert(has_walk(adj, s as int, v, k as nat));
                        assert forall|j: nat|
                            #![trigger has_walk(adj, s as int, v, j)]
                            j < k implies !has_walk(adj, s as int, v, j) by {
                            if has_walk(adj, s as int, v, j) {
                                crate::traversal::lemma_walk_bound(adj, s as int, dist@, v, j);
                            }
                        }
                    },
                    None => {
                        assert forall|k: nat|
                            #![trigger has_walk(adj, s as int, v, k)]
                            !has_walk(adj, s as int, v, k) by {
                            if has_walk(adj, s as int, v, k) {
                                crate::traversal::lemma_walk_bound(adj, s as int, dist@, v, k);
                            }
                        }
                    },
                }
            }
            assert(order@.contains(s)) by {
                assert(dist@[s as int].is_some());
            }
            assert(order@.len() > 0);
        }
        let r = BrandesPass { order, pred, sigma, dist };
        r
    }
}

} // verus!
