//! Library-wide laws: conservation of degree, agreement of the dual
//! adjacency structures, stability of the ranking, and determinism of
//! construction.
use vstd::prelude::*;

use crate::graph::{Graph, Vertex, edge_occ, edges_in_range};
use crate::degree::{in_count, rank_sorted, sum_usize, sum_fn, lemma_sum_usize_fn,
    lemma_sum_fn_congr, lemma_len_occ, lemma_in_total, lemma_out_total};
use crate::seq_util::{occ, sorted, lemma_sorted_occ_unique};

verus! {

/// Conservation of degree: over any graph built from an in-range edge list,
/// the out-degrees and the in-degrees that `degree_centrality` returns each
/// add up to the number of edges.
pub proof fn lemma_degree_sums(
    g: Graph,
    edges: Seq<(Vertex, Vertex)>,
    in_deg: Seq<usize>,
    out_deg: Seq<usize>,
)
    requires
        g.wf(),
        g.matches_edges(edges),
        edges_in_range(edges, g.n),
        out_deg.len() == g.n,
        in_deg.len() == g.n,
        forall|u: int| 0 <= u < g.n ==> #[trigger] out_deg[u] == g.outedges@[u]@.len(),
        forall|v: Vertex| v < g.n ==> #[trigger] in_deg[v as int] == in_count(edges, v),
    ensures
        sum_usize(out_deg) == edges.len(),
        sum_usize(in_deg) == edges.len(),
{
    let n = g.n;
    // In-degrees: every edge's target lies below n, so the counters share
    // the edges out exactly.
    lemma_sum_usize_fn(in_deg);
    lemma_sum_fn_congr(n as nat, |v: Vertex| in_deg[v as int] as int,
        |v: Vertex| in_count(edges, v) as int);
    lemma_in_total(edges, n);
    // Out-degrees: each list's length is the total of its multiplicities,
    // which matches a row of the edge grid.
    lemma_sum_usize_fn(out_deg);
    assert forall|u: Vertex| u < n implies #[trigger] (out_deg[u as int] as int) == sum_fn(
        n as nat,
        |v: Vertex| edge_occ(edges, u, v) as int,
    ) by {
        lemma_len_occ(g.outedges@[u as int]@, n);
        lemma_sum_fn_congr(n as nat, |v: Vertex| occ(g.outedges@[u as int]@, v) as int,
            |v: Vertex| edge_occ(edges, u, v) as int);
    }
    lemma_sum_fn_congr(n as nat, |u: Vertex| out_deg[u as int] as int,
        |u: Vertex| sum_fn(n as nat, |v: Vertex| edge_occ(edges, u, v) as int));
    lemma_out_total(edges, n);
}

/// The dual adjacency structures agree: `inedges[v]` carries `u` with the
/// same multiplicity that `outedges[u]` carries `v`.
pub proof fn lemma_in_out_multiplicity(g: Graph, edges: Seq<(Vertex, Vertex)>, u: Vertex, v: Vertex)
    requires
        g.matches_edges(edges),
        u < g.n,
        v < g.n,
    ensures
        occ(g.inedges@[v as int]@, u) == occ(g.outedges@[u as int]@, v),
{
    assert(occ(g.inedges@[v as int]@, u) == edge_occ(edges, u, v));
    assert(occ(g.outedges@[u as int]@, v) == edge_occ(edges, u, v));
}

/// Stability of the ranking: among pairs of equal degree, vertex indices
/// ascend, so equal-degree vertices keep their original order.
pub proof fn lemma_rank_stable(r: Seq<(usize, usize)>, a: int, b: int)
    requires
        rank_sorted(r),
        0 <= a < b < r.len(),
        r[a].1 == r[b].1,
    ensures
        r[a].0 < r[b].0,
{
}

/// The ranking is determined: two rank-sorted sequences over the same
/// multiset of pairs are equal.
pub proof fn lemma_rank_deterministic(r1: Seq<(usize, usize)>, r2: Seq<(usize, usize)>)
    requires
        rank_sorted(r1),
        rank_sorted(r2),
        forall|p: (usize, usize)| occ(r1, p) == occ(r2, p),
    ensures
        r1 =~= r2,
    decreases r1.len(),
{
    if r1.len() == 0 {
        if r2.len() > 0 {
            crate::seq_util::lemma_occ_contains(r2, r2[0]);
            crate::seq_util::lemma_occ_contains(r1, r2[0]);
        }
    } else {
        if r2.len() == 0 {
            crate::seq_util::lemma_occ_contains(r1, r1[0]);
            crate::seq_util::lemma_occ_contains(r2, r1[0]);
        } else {
            crate::seq_util::lemma_occ_contains(r1, r1[0]);
            crate::seq_util::lemma_occ_contains(r2, r1[0]);
            let k1 = choose|k: int| 0 <= k < r2.len() && r2[k] == r1[0];
            crate::seq_util::lemma_occ_contains(r2, r2[0]);
            crate::seq_util::lemma_occ_contains(r1, r2[0]);
            let k2 = choose|k: int| 0 <= k < r1.len() && r1[k] == r2[0];
            // Each head leads its own sequence, so each weakly precedes the
            // other in rank order; hence they are the same pair.
            assert(r1[0] == r2[0]);
            let s1 = r1.subrange(1, r1.len() as int);
            let s2 = r2.subrange(1, r2.len() as int);
            assert forall|p: (usize, usize)| occ(s1, p) == occ(s2, p) by {
                crate::seq_util::lemma_occ_drop_first(r1, p);
                crate::seq_util::lemma_occ_drop_first(r2, p);
            }
            lemma_rank_deterministic(s1, s2);
            assert(r1 =~= Seq::<(usize, usize)>::empty().push(r1[0]) + s1);
            assert(r2 =~= Seq::<(usize, usize)>::empty().push(r2[0]) + s2);
        }
    }
}

/// Determinism of construction: two graphs that both carry the same edge
/// list, with ascending adjacency lists, have identical adjacency sequences.
pub proof fn lemma_construction_deterministic(g1: Graph, g2: Graph, edges: Seq<(Vertex, Vertex)>)
    requires
        g1.wf(),
        g2.wf(),
        g1.n == g2.n,
        g1.matches_edges(edges),
        g2.matches_edges(edges),
    ensures
        forall|u: int| 0 <= u < g1.n ==> (#[trigger] g1.outedges@[u])@ == g2.outedges@[u]@,
        forall|v: int| 0 <= v < g1.n ==> (#[trigger] g1.inedges@[v])@ == g2.inedges@[v]@,
{
    assert forall|u: int|
        0 <= u < g1.n implies (#[trigger] g1.outedges@[u])@ == g2.outedges@[u]@ by {
        assert forall|x: Vertex| occ(g1.outedges@[u]@, x) == occ(g2.outedges@[u]@, x) by {
            assert(occ(g1.outedges@[u]@, x) == edge_occ(edges, u as Vertex, x));
            assert(occ(g2.outedges@[u]@, x) == edge_occ(edges, u as Vertex, x));
        }
        lemma_sorted_occ_unique(g1.outedges@[u]@, g2.outedges@[u]@);
    }
    assert forall|v: int| 0 <= v < g1.n implies (#[trigger] g1.inedges@[v])@ == g2.inedges@[v]@ by {
        assert forall|x: Vertex| occ(g1.inedges@[v]@, x) == occ(g2.inedges@[v]@, x) by {
            assert(occ(g1.inedges@[v]@, x) == edge_occ(edges, x, v as Vertex));
            assert(occ(g2.inedges@[v]@, x) == edge_occ(edges, x, v as Vertex));
        }
        lemma_sorted_occ_unique(g1.inedges@[v]@, g2.inedges@[v]@);
    }
}

} // verus!
