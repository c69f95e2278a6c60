//! Degree centrality: in-degree and out-degree per vertex, and the stable
//! descending ranking of vertices by degree.
use vstd::prelude::*;
use vstd::pervasive::VecAdditionalExecFns;

use crate::graph::{Graph, ListOfEdges, Vertex, edges_in_range, edge_occ};
use crate::seq_util::{occ, lemma_occ_take_step};

verus! {

/// Number of edges whose target is `v`.
pub open spec fn in_count(edges: Seq<(Vertex, Vertex)>, v: Vertex) -> nat
    decreases edges.len(),
{
    if edges.len() == 0 {
        0
    } else {
        in_count(edges.drop_last(), v) + if edges.last().1 == v {
            1nat
        } else {
            0nat
        }
    }
}

/// The vertices paired with their degrees, in ascending vertex order.
pub open spec fn enum_pairs(d: Seq<usize>) -> Seq<(usize, usize)> {
    Seq::new(d.len(), |i: int| (i as usize, d[i]))
}

/// Degree descending; on equal degrees, vertex index ascending.
pub open spec fn rank_sorted(s: Seq<(usize, usize)>) -> bool {
    forall|a: int, b: int|
        0 <= a < b < s.len() ==> (#[trigger] s[a]).1 >= (#[trigger] s[b]).1 && (s[a].1 == s[b].1
            ==> s[a].0 < s[b].0)
}

/// Sum of the first `m` values of `f`.
pub open spec fn sum_fn(m: nat, f: spec_fn(Vertex) -> int) -> int
    decreases m,
{
    if m == 0 {
        0
    } else {
        sum_fn((m - 1) as nat, f) + f((m - 1) as Vertex)
    }
}

/// Sum of a sequence of degrees.
pub open spec fn sum_usize(s: Seq<usize>) -> int
    decreases s.len(),
{
    if s.len() == 0 {
        0
    } else {
        sum_usize(s.drop_last()) + s.last()
    }
}

pub proof fn lemma_in_count_le_len(edges: Seq<(Vertex, Vertex)>, v: Vertex)
    ensures
        in_count(edges, v) <= edges.len(),
    decreases edges.len(),
{
    if edges.len() > 0 {
        lemma_in_count_le_len(edges.drop_last(), v);
    }
}

pub proof fn lemma_in_count_take_step(edges: Seq<(Vertex, Vertex)>, k: int, v: Vertex)
    requires
        0 <= k < edges.len(),
    ensures
        in_count(edges.take(k + 1), v) == in_count(edges.take(k), v) + if edges[k].1 == v {
            1nat
        } else {
            0nat
        },
{
    assert(edges.take(k + 1).drop_last() =~= edges.take(k));
    assert(edges.take(k + 1).last() == edges[k]);
}

pub proof fn lemma_sum_fn_zero(m: nat, f: spec_fn(Vertex) -> int)
    requires
        forall|v: Vertex| v < m ==> #[trigger] f(v) == 0,
    ensures
        sum_fn(m, f) == 0,
    decreases m,
{
    if m > 0 {
        lemma_sum_fn_zero((m - 1) as nat, f);
    }
}

pub proof fn lemma_sum_fn_congr(m: nat, f: spec_fn(Vertex) -> int, g: spec_fn(Vertex) -> int)
    requires
        forall|v: Vertex| v < m ==> #[trigger] f(v) == g(v),
    ensures
        sum_fn(m, f) == sum_fn(m, g),
    decreases m,
{
    if m > 0 {
        lemma_sum_fn_congr((m - 1) as nat, f, g);
    }
}

/// Raising `f` by one at the single place `x` raises the sum by one, when
/// `x` lies below `m`.
pub proof fn lemma_sum_fn_delta(m: nat, f: spec_fn(Vertex) -> int, g: spec_fn(Vertex) -> int, x: Vertex)
    requires
        m <= usize::MAX,
        forall|v: Vertex|
            v < m ==> #[trigger] g(v) == f(v) + if v == x {
                1int
            } else {
                0int
            },
    ensures
        sum_fn(m, g) == sum_fn(m, f) + if x < m {
            1int
        } else {
            0int
        },
    decreases m,
{
    if m > 0 {
        lemma_sum_fn_delta((m - 1) as nat, f, g, x);
    }
}

/// A sequence of degrees sums as the pointwise function does.
pub proof fn lemma_sum_usize_fn(s: Seq<usize>)
    requires
        s.len() <= usize::MAX,
    ensures
        sum_usize(s) == sum_fn(s.len(), |v: Vertex| s[v as int] as int),
    decreases s.len(),
{
    if s.len() > 0 {
        lemma_sum_usize_fn(s.drop_last());
        lemma_sum_fn_congr((s.len() - 1) as nat, |v: Vertex| s.drop_last()[v as int] as int,
            |v: Vertex| s[v as int] as int);
    }
}

/// A sequence with entries below `n` is as long as the total of the
/// per-value multiplicities over `[0, n)`.
pub proof fn lemma_len_occ(s: Seq<Vertex>, n: usize)
    requires
        forall|i: int| 0 <= i < s.len() ==> (#[trigger] s[i]) < n,
    ensures
        s.len() == sum_fn(n as nat, |v: Vertex| occ(s, v) as int),
    decreases s.len(),
{
    if s.len() == 0 {
        lemma_sum_fn_zero(n as nat, |v: Vertex| occ(s, v) as int);
    } else {
        assert(forall|i: int| 0 <= i < s.len() - 1 ==> s.drop_last()[i] == s[i]);
        lemma_len_occ(s.drop_last(), n);
        lemma_sum_fn_delta(n as nat, |v: Vertex| occ(s.drop_last(), v) as int,
            |v: Vertex| occ(s, v) as int, s.last());
    }
}

/// Every edge has one target: the in-degree counters over `[0, n)` add up to
/// the number of edges, when every target lies below `n`.
pub proof fn lemma_in_total(edges: Seq<(Vertex, Vertex)>, n: usize)
    requires
        forall|k: int| 0 <= k < edges.len() ==> (#[trigger] edges[k]).1 < n,
    ensures
        sum_fn(n as nat, |v: Vertex| in_count(edges, v) as int) == edges.len(),
    decreases edges.len(),
{
    if edges.len() == 0 {
        lemma_sum_fn_zero(n as nat, |v: Vertex| in_count(edges, v) as int);
    } else {
        let pre = edges.drop_last();
        assert(forall|k: int| 0 <= k < pre.len() ==> pre[k] == edges[k]);
        lemma_in_total(pre, n);
        lemma_sum_fn_delta(n as nat, |v: Vertex| in_count(pre, v) as int,
            |v: Vertex| in_count(edges, v) as int, edges.last().1);
    }
}

/// Each edge `(u, v)` lies in exactly one cell of the `edge_occ` grid: the
/// grid over `[0, n) x [0, n)` totals the number of edges.
pub proof fn lemma_out_total(edges: Seq<(Vertex, Vertex)>, n: usize)
    requires
        edges_in_range(edges, n),
    ensures
        sum_fn(n as nat, |u: Vertex| sum_fn(n as nat, |v: Vertex| edge_occ(edges, u, v) as int))
            == edges.len(),
    decreases edges.len(),
{
    let full = |u: Vertex| sum_fn(n as nat, |v: Vertex| edge_occ(edges, u, v) as int);
    if edges.len() == 0 {
        assert forall|u: Vertex| u < n implies #[trigger] full(u) == 0 by {
            lemma_sum_fn_zero(n as nat, |v: Vertex| edge_occ(edges, u, v) as int);
        }
        lemma_sum_fn_zero(n as nat, full);
    } else {
        let pre = edges.drop_last();
        let u0 = edges.last().0;
        let v0 = edges.last().1;
        let prev = |u: Vertex| sum_fn(n as nat, |v: Vertex| edge_occ(pre, u, v) as int);
        assert(forall|k: int| 0 <= k < pre.len() ==> pre[k] == edges[k]);
        lemma_out_total(pre, n);
        assert forall|u: Vertex|
            u < n implies #[trigger] full(u) == prev(u) + if u == u0 {
            1int
        } else {
            0int
        } by {
            if u == u0 {
                lemma_sum_fn_delta(n as nat, |v: Vertex| edge_occ(pre, u, v) as int,
                    |v: Vertex| edge_occ(edges, u, v) as int, v0);
            } else {
                lemma_sum_fn_congr(n as nat, |v: Vertex| edge_occ(pre, u, v) as int,
                    |v: Vertex| edge_occ(edges, u, v) as int);
            }
        }
        lemma_sum_fn_delta(n as nat, prev, full, u0);
    }
}

impl Graph {
    /// Out-degree read off the adjacency lists; in-degree counted afresh
    /// from the raw edge list, one increment per edge whose target is in
    /// range. Returns `(in_degree, out_degree)`.
    pub fn degree_centrality(graph: &Graph, edges: &ListOfEdges) -> (r: (Vec<usize>, Vec<usize>))
        ensures
            r.0@.len() == graph.outedges@.len(),
            r.1@.len() == graph.outedges@.len(),
            forall|u: int|
                0 <= u < r.1@.len() ==> #[trigger] r.1@[u] == graph.outedges@[u]@.len(),
            forall|v: Vertex| v < r.0@.len() ==> #[trigger] r.0@[v as int] == in_count(edges@, v),
    {
        let n = graph.outedges.len();
        let mut out_degree: Vec<usize> = Vec::new();
        let mut in_degree: Vec<usize> = Vec::new();
        let mut u: usize = 0;
        while u < n
            invariant
                u <= n,
                n == graph.outedges@.len(),
                out_degree@.len() == u,
                in_degree@.len() == u,
                forall|w: int|
                    0 <= w < u ==> #[trigger] out_degree@[w] == graph.outedges@[w]@.len(),
                forall|w: int| 0 <= w < u ==> #[trigger] in_degree@[w] == 0,
            decreases n - u,
        {
            out_degree.push(graph.outedges[u].len());
            in_degree.push(0);
            u += 1;
        }
        let mut k: usize = 0;
        while k < edges.len()
            invariant
                k <= edges@.len(),
                n == graph.outedges@.len(),
                out_degree@.len() == n,
                in_degree@.len() == n,
                forall|w: int|
                    0 <= w < n ==> #[trigger] out_degree@[w] == graph.outedges@[w]@.len(),
                forall|w: Vertex|
                    w < n ==> #[trigger] in_degree@[w as int] == in_count(edges@.take(k as int), w),
            decreases edges@.len() - k,
        {
            let (_, v) = edges[k];
            proof {
                assert forall|w: Vertex|
                    w < n implies in_count(edges@.take(k + 1), w) == in_count(
                    edges@.take(k as int),
                    w,
                ) + if edges@[k as int].1 == w {
                    1nat
                } else {
                    0nat
                } by {
                    lemma_in_count_take_step(edges@, k as int, w);
                }
            }
            if v < n {
                proof {
                    lemma_in_count_le_len(edges@.take(k as int), v);
                    assert(edges@.take(k as int).len() == k);
                }
                let d = in_degree[v];
                in_degree.set(v, d + 1);
            }
            k += 1;
        }
        proof {
            assert(edges@.take(edges@.len() as int) =~= edges@);
        }
        (in_degree, out_degree)
    }

    /// Reorders the vertices by degree, highest first; vertices of equal
    /// degree keep their ascending-index order.
    pub fn sort_nodes_by_degree(degrees: &Vec<usize>) -> (r: Vec<(usize, usize)>)
        ensures
            r@.len() == degrees@.len(),
            rank_sorted(r@),
            forall|p: (usize, usize)| occ(r@, p) == occ(enum_pairs(degrees@), p),
    {
        let mut r: Vec<(usize, usize)> = Vec::new();
        let mut i: usize = 0;
        while i < degrees.len()
            invariant
                i <= degrees@.len(),
                r@.len() == i,
                rank_sorted(r@),
                forall|k: int| 0 <= k < r@.len() ==> (#[trigger] r@[k]).0 < i,
                forall|p: (usize, usize)|
                    occ(r@, p) == occ(enum_pairs(degrees@).take(i as int), p),
            decreases degrees@.len() - i,
        {
            let x = (i, degrees[i]);
            proof {
                assert(enum_pairs(degrees@)[i as int] == x);
                assert forall|p: (usize, usize)|
                    occ(enum_pairs(degrees@).take(i + 1), p) == occ(
                    enum_pairs(degrees@).take(i as int),
                    p,
                ) + if p == x {
                    1nat
                } else {
                    0nat
                } by {
                    lemma_occ_take_step(enum_pairs(degrees@), i as int, p);
                }
            }
            rank_insert(&mut r, x);
            i += 1;
        }
        proof {
            assert(enum_pairs(degrees@).take(degrees@.len() as int) =~= enum_pairs(degrees@));
        }
        r
    }
}

/// Places `x` before the first strictly lower degree, after every pair of
/// equal or higher degree; the pairs already present carry lower vertex
/// indices than `x`.
fn rank_insert(r: &mut Vec<(usize, usize)>, x: (usize, usize))
    requires
        rank_sorted(old(r)@),
        forall|k: int| 0 <= k < old(r)@.len() ==> (#[trigger] old(r)@[k]).0 < x.0,
    ensures
        rank_sorted(final(r)@),
        final(r)@.len() == old(r)@.len() + 1,
        forall|p: (usize, usize)| occ(final(r)@, p) == occ(old(r)@, p) + if p == x {
            1nat
        } else {
            0nat
        },
        forall|k: int| 0 <= k < final(r)@.len() ==> (#[trigger] final(r)@[k]).0 <= x.0,
{
    let mut p: usize = 0;
    while p < r.len() && r[p].1 >= x.1
        invariant
            p <= r@.len(),
            r@ == old(r)@,
            forall|k: int| 0 <= k < p ==> (#[trigger] r@[k]).1 >= x.1,
        decreases r@.len() - p,
    {
        p += 1;
    }
    assert(forall|k: int| p <= k < r@.len() ==> (#[trigger] r@[k]).1 < x.1);
    r.insert(p, x);
    proof {
        let s = old(r)@;
        let t = r@;
        assert(t =~= s.take(p as int) + Seq::empty().push(x) + s.skip(p as int));
        assert forall|q: (usize, usize)| occ(t, q) == occ(s, q) + if q == x {
            1nat
        } else {
            0nat
        } by {
            crate::seq_util::lemma_occ_concat(s.take(p as int) + Seq::empty().push(x),
                s.skip(p as int), q);
            crate::seq_util::lemma_occ_concat(s.take(p as int), Seq::empty().push(x), q);
            crate::seq_util::lemma_occ_push(Seq::<(usize, usize)>::empty(), x, q);
            crate::seq_util::lemma_occ_concat(s.take(p as int), s.skip(p as int), q);
            assert(s =~= s.take(p as int) + s.skip(p as int));
        }
        assert forall|a: int, b: int|
            0 <= a < b < t.len() implies (#[trigger] t[a]).1 >= (#[trigger] t[b]).1 && (t[a].1
            == t[b].1 ==> t[a].0 < t[b].0) by {
            assert(forall|k: int| 0 <= k < p ==> t[k] == s[k]);
            assert(t[p as int] == x);
            assert(forall|k: int| p < k < t.len() ==> t[k] == s[k - 1]);
        }
    }
}

/// The vertex-degree pairing holds each vertex below the length exactly
/// once, and nothing else.
pub proof fn lemma_enum_occ(d: Seq<usize>, p: (usize, usize))
    requires
        d.len() <= usize::MAX,
    ensures
        occ(enum_pairs(d), p) == if p.0 < d.len() && p.1 == d[p.0 as int] {
            1nat
        } else {
            0nat
        },
    decreases d.len(),
{
    if d.len() == 0 {
    } else {
        let e = enum_pairs(d);
        let pre = d.drop_last();
        assert(e.drop_last() =~= enum_pairs(pre));
        assert(e.last() == (((d.len() - 1) as usize), d.last()));
        lemma_enum_occ(pre, p);
    }
}

} // verus!
