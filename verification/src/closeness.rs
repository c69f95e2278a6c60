//! Closeness centrality: per-vertex reachability counts and total
//! shortest-path distance, one breadth-first pass per vertex. The final
//! score is the quotient `(reachable - 1) / total_distance`, a floating-point
//! value the caller forms from these exact integer aggregates.
use vstd::prelude::*;

use crate::graph::{Graph, Vertex};
use crate::traversal::{adj_of, adj_wf, bfs, dist_pinned, dval, has_walk};

verus! {

/// Some walk from `s` reaches `v`.
pub open spec fn reaches(adj: Seq<Seq<Vertex>>, s: int, v: int) -> bool {
    exists|k: nat| has_walk(adj, s, v, k)
}

/// The least walk length from `s` to `v` (meaningful when `reaches` holds).
pub open spec fn sdist(adj: Seq<Seq<Vertex>>, s: int, v: int) -> nat {
    choose|k: nat|
        has_walk(adj, s, v, k) && (forall|j: nat|
            #![trigger has_walk(adj, s, v, j)]
            j < k ==> !has_walk(adj, s, v, j))
}

/// How many of the vertices below `m` lie at a positive finite distance
/// from `s`.
pub open spec fn reach_count(adj: Seq<Seq<Vertex>>, s: int, m: nat) -> nat
    decreases m,
{
    if m == 0 {
        0
    } else {
        reach_count(adj, s, (m - 1) as nat) + if reaches(adj, s, m - 1) && sdist(adj, s, m - 1)
            > 0 {
            1nat
        } else {
            0nat
        }
    }
}

/// The total shortest-path distance from `s` to the vertices below `m` at a
/// positive finite distance.
pub open spec fn dist_total(adj: Seq<Seq<Vertex>>, s: int, m: nat) -> nat
    decreases m,
{
    if m == 0 {
        0
    } else {
        dist_total(adj, s, (m - 1) as nat) + if reaches(adj, s, m - 1) && sdist(adj, s, m - 1)
            > 0 {
            sdist(adj, s, m - 1)
        } else {
            0nat
        }
    }
}

/// A pinned distance entry names exactly the least walk length, or the
/// absence of any walk.
pub proof fn lemma_pinned_entry(adj: Seq<Seq<Vertex>>, s: int, d: Seq<Option<usize>>, v: int)
    requires
        dist_pinned(adj, s, d),
        0 <= v < d.len(),
    ensures
        match d[v] {
            Some(k) => reaches(adj, s, v) && sdist(adj, s, v) == k,
            None => !reaches(adj, s, v),
        },
{
    match d[v] {
        Some(k) => {
            assert(has_walk(adj, s, v, k as nat));
            assert(reaches(adj, s, v));
            assert(exists|k2: nat|
                has_walk(adj, s, v, k2) && (forall|j: nat|
                    #![trigger has_walk(adj, s, v, j)]
                    j < k2 ==> !has_walk(adj, s, v, j))) by {
                assert(has_walk(adj, s, v, k as nat) && (forall|j: nat|
                    #![trigger has_walk(adj, s, v, j)]
                    j < k as nat ==> !has_walk(adj, s, v, j)));
            }
            let kc = sdist(adj, s, v);
            assert(has_walk(adj, s, v, kc) && (forall|j: nat|
                #![trigger has_walk(adj, s, v, j)]
                j < kc ==> !has_walk(adj, s, v, j)));
            if kc < k as nat {
                assert(!has_walk(adj, s, v, kc));
            } else if (k as nat) < kc {
                assert(!has_walk(adj, s, v, k as nat));
            }
        },
        None => {
            if reaches(adj, s, v) {
                let k = choose|k: nat| has_walk(adj, s, v, k);
                assert(!has_walk(adj, s, v, k));
            }
        },
    }
}

impl Graph {
    /// For each vertex: how many vertices it reaches at a positive distance,
    /// and the total of those shortest distances. The closeness score of a
    /// vertex with aggregates `(reachable, total)` is
    /// `(reachable - 1) / total` when `total > 0` and zero otherwise.
    pub fn closeness_counts(graph: &Graph) -> (r: Vec<(usize, u128)>)
        requires
            graph.wf(),
        ensures
            r@.len() == graph.n,
            forall|i: int|
                0 <= i < graph.n ==> (#[trigger] r@[i]).0 == reach_count(
                    adj_of(&graph.outedges),
                    i,
                    graph.n as nat,
                ) && r@[i].1 == dist_total(adj_of(&graph.outedges), i, graph.n as nat),
    {
        let ghost adj = adj_of(&graph.outedges);
        let n = graph.outedges.len();
        proof {
            assert(n == graph.n);
            assert(adj.len() == n);
            assert forall|u: int, i: int|
                0 <= u < adj.len() && 0 <= i < adj[u].len() implies (#[trigger] adj[u][i])
                < adj.len() by {
                assert(adj[u] == graph.outedges@[u]@);
            }
        }
        let mut cent: Vec<(usize, u128)> = Vec::new();
        let mut i: usize = 0;
        while i < n
            invariant
                i <= n,
                n == graph.n,
                n == graph.outedges@.len(),
                adj == adj_of(&graph.outedges),
                adj.len() == n,
                adj_wf(adj),
                cent@.len() == i,
                forall|s: int|
                    0 <= s < i ==> (#[trigger] cent@[s]).0 == reach_count(adj, s, n as nat)
                        && cent@[s].1 == dist_total(adj, s, n as nat),
            decreases n - i,
        {
            let distances = bfs(i, &graph.outedges);
            let mut total: u128 = 0;
            let mut reach: usize = 0;
            let mut v: usize = 0;
            while v < n
                invariant
                    v <= n,
                    n == graph.n,
                    i < n,
                    adj.len() == n,
                    distances@.len() == n,
                    dist_pinned(adj, i as int, distances@),
                    forall|w: int|
                        0 <= w < n && (#[trigger] distances@[w]).is_some() ==> dval(distances@, w)
                            < n,
                    reach == reach_count(adj, i as int, v as nat),
                    total == dist_total(adj, i as int, v as nat),
                    reach <= v,
                    total <= (v as int) * (n as int),
                decreases n - v,
            {
                proof {
                    lemma_pinned_entry(adj, i as int, distances@, v as int);
                    assert(((v as int) + 1) * (n as int) == (v as int) * (n as int) + (n as int)
                        && (v as int) * (n as int) + (n as int) <= (n as int) * (n as int) && (
                    n as int) * (n as int) < u128::MAX) by (nonlinear_arith)
                        requires
                            0 <= v < n,
                            n <= u64::MAX,
                    ;
                }
                match distances[v] {
                    Some(dist) => {
                        if dist > 0 {
                            total = total + dist as u128;
                            reach = reach + 1;
                        }
                    },
                    None => {},
                }
                v += 1;
            }
            cent.push((reach, total));
            i += 1;
        }
        cent
    }
}

} // verus!
