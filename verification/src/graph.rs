//! The directed graph: dual adjacency lists (outgoing and incoming), built
//! once from an edge list and frozen afterwards.
use vstd::prelude::*;
use vstd::pervasive::VecAdditionalExecFns;

use crate::seq_util::{occ, sorted, lemma_occ_push, lemma_occ_concat, lemma_occ_take_step};

verus! {

pub type Vertex = usize;

pub type ListOfEdges = Vec<(Vertex, Vertex)>;

pub type AdjacencyLists = Vec<Vec<Vertex>>;

/// Graph represented as adjacency lists of both incoming and outgoing edges.
#[derive(Debug)]
pub struct Graph {
    pub n: usize,
    pub outedges: AdjacencyLists,
    pub inedges: AdjacencyLists,
}

/// The one recoverable construction failure: an edge endpoint at or above
/// the declared vertex count.
#[derive(Clone, Copy, PartialEq, Eq, Structural, Debug)]
pub enum GraphError {
    OutOfRangeVertex,
}

/// Multiplicity of the edge `(u, v)` in an edge list.
pub open spec fn edge_occ(edges: Seq<(Vertex, Vertex)>, u: Vertex, v: Vertex) -> nat {
    occ(edges, (u, v))
}

/// Every endpoint lies below the vertex count `n`.
pub open spec fn edges_in_range(edges: Seq<(Vertex, Vertex)>, n: usize) -> bool {
    forall|k: int| 0 <= k < edges.len() ==> (#[trigger] edges[k]).0 < n && edges[k].1 < n
}

/// Targets of the edges leaving `u`, in edge-list order.
pub open spec fn targets_of(edges: Seq<(Vertex, Vertex)>, u: Vertex) -> Seq<Vertex>
    decreases edges.len(),
{
    if edges.len() == 0 {
        Seq::empty()
    } else {
        targets_of(edges.drop_last(), u) + if edges.last().0 == u {
            Seq::empty().push(edges.last().1)
        } else {
            Seq::empty()
        }
    }
}

/// Sources of the edges entering `v`, in edge-list order.
pub open spec fn sources_of(edges: Seq<(Vertex, Vertex)>, v: Vertex) -> Seq<Vertex>
    decreases edges.len(),
{
    if edges.len() == 0 {
        Seq::empty()
    } else {
        sources_of(edges.drop_last(), v) + if edges.last().1 == v {
            Seq::empty().push(edges.last().0)
        } else {
            Seq::empty()
        }
    }
}

pub proof fn lemma_targets_occ(edges: Seq<(Vertex, Vertex)>, u: Vertex, v: Vertex)
    ensures
        occ(targets_of(edges, u), v) == edge_occ(edges, u, v),
    decreases edges.len(),
{
    if edges.len() > 0 {
        lemma_targets_occ(edges.drop_last(), u, v);
        if edges.last().0 == u {
            lemma_occ_concat(targets_of(edges.drop_last(), u),
                Seq::empty().push(edges.last().1), v);
            lemma_occ_push(Seq::<Vertex>::empty(), edges.last().1, v);
        } else {
            assert(targets_of(edges, u) =~= targets_of(edges.drop_last(), u));
        }
    }
}

pub proof fn lemma_sources_occ(edges: Seq<(Vertex, Vertex)>, u: Vertex, v: Vertex)
    ensures
        occ(sources_of(edges, v), u) == edge_occ(edges, u, v),
    decreases edges.len(),
{
    if edges.len() > 0 {
        lemma_sources_occ(edges.drop_last(), u, v);
        if edges.last().1 == v {
            lemma_occ_concat(sources_of(edges.drop_last(), v),
                Seq::empty().push(edges.last().0), u);
            lemma_occ_push(Seq::<Vertex>::empty(), edges.last().0, u);
        } else {
            assert(sources_of(edges, v) =~= sources_of(edges.drop_last(), v));
        }
    }
}

impl Graph {
    /// Both adjacency structures cover exactly `n` vertices and name only
    /// vertices below `n`, each list in ascending order.
    pub open spec fn wf(self) -> bool {
        &&& self.outedges@.len() == self.n
        &&& self.inedges@.len() == self.n
        &&& forall|u: int| 0 <= u < self.n ==> sorted(#[trigger] self.outedges@[u]@)
        &&& forall|u: int| 0 <= u < self.n ==> sorted(#[trigger] self.inedges@[u]@)
        &&& forall|u: int, i: int|
            0 <= u < self.n && 0 <= i < self.outedges@[u]@.len() ==> (#[trigger] self.outedges@[u]@[i])
                < self.n
        &&& forall|u: int, i: int|
            0 <= u < self.n && 0 <= i < self.inedges@[u]@.len() ==> (#[trigger] self.inedges@[u]@[i])
                < self.n
    }

    /// The adjacency lists carry each edge of `edges` with its multiplicity:
    /// `v` stands in `outedges[u]`, and `u` in `inedges[v]`, exactly as often
    /// as `(u, v)` stands in `edges`.
    pub open spec fn matches_edges(self, edges: Seq<(Vertex, Vertex)>) -> bool {
        &&& self.outedges@.len() == self.n
        &&& self.inedges@.len() == self.n
        &&& forall|u: Vertex, v: Vertex|
            u < self.n ==> #[trigger] occ(self.outedges@[u as int]@, v) == edge_occ(edges, u, v)
        &&& forall|u: Vertex, v: Vertex|
            v < self.n ==> #[trigger] occ(self.inedges@[v as int]@, u) == edge_occ(edges, u, v)
    }

    /// The outgoing adjacency lists seen as a sequence of sequences, the view
    /// the traversal contracts are stated over.
    pub open spec fn out_view(self) -> Seq<Seq<Vertex>> {
        self.outedges@.map_values(|l: Vec<Vertex>| l@)
    }

    /// Appends each edge `(u, v)` of `edges`: `v` onto `outedges[u]` and `u`
    /// onto `inedges[v]`, in edge-list order.
    pub fn add_directed_edges(&mut self, edges: &ListOfEdges)
        requires
            forall|k: int|
                0 <= k < edges@.len() ==> (#[trigger] edges@[k]).0 < old(self).outedges@.len()
                    && edges@[k].1 < old(self).inedges@.len(),
        ensures
            final(self).n == old(self).n,
            final(self).outedges@.len() == old(self).outedges@.len(),
            final(self).inedges@.len() == old(self).inedges@.len(),
            forall|u: Vertex|
                u < old(self).outedges@.len() ==> (#[trigger] final(self).outedges@[u as int])@
                    == old(self).outedges@[u as int]@ + targets_of(edges@, u),
            forall|v: Vertex|
                v < old(self).inedges@.len() ==> (#[trigger] final(self).inedges@[v as int])@
                    == old(self).inedges@[v as int]@ + sources_of(edges@, v),
    {
        let mut k: usize = 0;
        while k < edges.len()
            invariant
                k <= edges@.len(),
                self.n == old(self).n,
                self.outedges@.len() == old(self).outedges@.len(),
                self.inedges@.len() == old(self).inedges@.len(),
                forall|j: int|
                    0 <= j < edges@.len() ==> (#[trigger] edges@[j]).0 < self.outedges@.len()
                        && edges@[j].1 < self.inedges@.len(),
                forall|u: Vertex|
                    u < self.outedges@.len() ==> (#[trigger] self.outedges@[u as int])@
                        == old(self).outedges@[u as int]@ + targets_of(edges@.take(k as int), u),
                forall|v: Vertex|
                    v < self.inedges@.len() ==> (#[trigger] self.inedges@[v as int])@
                        == old(self).inedges@[v as int]@ + sources_of(edges@.take(k as int), v),
            decreases edges@.len() - k,
        {
            let (u, v) = edges[k];
            self.outedges[u].push(v);
            self.inedges[v].push(u);
            proof {
                let pre = edges@.take(k as int);
                let post = edges@.take(k + 1);
                assert(post.drop_last() =~= pre);
                assert(post.last() == edges@[k as int]);
                assert forall|w: Vertex|
                    w < self.outedges@.len() implies (#[trigger] self.outedges@[w as int])@
                        == old(self).outedges@[w as int]@ + targets_of(post, w) by {
                    if w == u {
                        assert(targets_of(post, u) =~= targets_of(pre, u)
                            + Seq::empty().push(v));
                        assert(self.outedges@[w as int]@ =~= old(self).outedges@[w as int]@
                            + targets_of(post, w));
                    } else {
                        assert(targets_of(post, w) =~= targets_of(pre, w));
                    }
                }
                assert forall|w: Vertex|
                    w < self.inedges@.len() implies (#[trigger] self.inedges@[w as int])@
                        == old(self).inedges@[w as int]@ + sources_of(post, w) by {
                    if w == v {
                        assert(sources_of(post, v) =~= sources_of(pre, v)
                            + Seq::empty().push(u));
                        assert(self.inedges@[w as int]@ =~= old(self).inedges@[w as int]@
                            + sources_of(post, w));
                    } else {
                        assert(sources_of(post, w) =~= sources_of(pre, w));
                    }
                }
            }
            k += 1;
        }
        proof {
            assert(edges@.take(edges@.len() as int) =~= edges@);
        }
    }

    /// Puts every per-vertex adjacency list into ascending order, keeping
    /// each list's multiset of entries.
    fn sort_graph_lists(&mut self)
        ensures
            final(self).n == old(self).n,
            final(self).outedges@.len() == old(self).outedges@.len(),
            final(self).inedges@.len() == old(self).inedges@.len(),
            forall|u: int|
                0 <= u < old(self).outedges@.len() ==> sorted(
                    (#[trigger] final(self).outedges@[u])@,
                ) && final(self).outedges@[u]@.len() == old(self).outedges@[u]@.len(),
            forall|v: int|
                0 <= v < old(self).inedges@.len() ==> sorted((#[trigger] final(self).inedges@[v])@)
                    && final(self).inedges@[v]@.len() == old(self).inedges@[v]@.len(),
            forall|u: int, y: Vertex|
                0 <= u < old(self).outedges@.len() ==> #[trigger] occ(final(self).outedges@[u]@, y)
                    == occ(old(self).outedges@[u]@, y),
            forall|v: int, y: Vertex|
                0 <= v < old(self).inedges@.len() ==> #[trigger] occ(final(self).inedges@[v]@, y)
                    == occ(old(self).inedges@[v]@, y),
    {
        let mut u: usize = 0;
        while u < self.outedges.len()
            invariant
                u <= self.outedges@.len(),
                self.n == old(self).n,
                self.outedges@.len() == old(self).outedges@.len(),
                self.inedges@ == old(self).inedges@,
                forall|w: int|
                    0 <= w < u ==> sorted((#[trigger] self.outedges@[w])@)
                        && self.outedges@[w]@.len() == old(self).outedges@[w]@.len(),
                forall|w: int, y: Vertex|
                    0 <= w < u ==> #[trigger] occ(self.outedges@[w]@, y)
                        == occ(old(self).outedges@[w]@, y),
                forall|w: int|
                    u <= w < self.outedges@.len() ==> (#[trigger] self.outedges@[w])@
                        == old(self).outedges@[w]@,
            decreases self.outedges@.len() - u,
        {
            let s = sort_ascending(&self.outedges[u]);
            self.outedges.set(u, s);
            u += 1;
        }
        let mut v: usize = 0;
        while v < self.inedges.len()
            invariant
                v <= self.inedges@.len(),
                self.n == old(self).n,
                self.inedges@.len() == old(self).inedges@.len(),
                self.outedges@.len() == old(self).outedges@.len(),
                forall|w: int|
                    0 <= w < old(self).outedges@.len() ==> sorted(
                        (#[trigger] self.outedges@[w])@,
                    ) && self.outedges@[w]@.len() == old(self).outedges@[w]@.len(),
                forall|w: int, y: Vertex|
                    0 <= w < old(self).outedges@.len() ==> #[trigger] occ(self.outedges@[w]@, y)
                        == occ(old(self).outedges@[w]@, y),
                forall|w: int|
                    0 <= w < v ==> sorted((#[trigger] self.inedges@[w])@)
                        && self.inedges@[w]@.len() == old(self).inedges@[w]@.len(),
                forall|w: int, y: Vertex|
                    0 <= w < v ==> #[trigger] occ(self.inedges@[w]@, y)
                        == occ(old(self).inedges@[w]@, y),
                forall|w: int|
                    v <= w < self.inedges@.len() ==> (#[trigger] self.inedges@[w])@
                        == old(self).inedges@[w]@,
            decreases self.inedges@.len() - v,
        {
            let s = sort_ascending(&self.inedges[v]);
            self.inedges.set(v, s);
            v += 1;
        }
    }

    /// Builds the directed graph on `n` vertices carrying exactly the edges
    /// of `edges`, every adjacency list ascending; rejects any edge with an
    /// endpoint at or above `n`.
    pub fn create_directed(n: usize, edges: &ListOfEdges) -> (r: Result<Graph, GraphError>)
        ensures
            match r {
                Ok(g) => edges_in_range(edges@, n) && g.wf() && g.n == n && g.matches_edges(
                    edges@,
                ),
                Err(e) => e == GraphError::OutOfRangeVertex && !edges_in_range(edges@, n),
            },
    {
        let mut k: usize = 0;
        while k < edges.len()
            invariant
                k <= edges@.len(),
                forall|j: int| 0 <= j < k ==> (#[trigger] edges@[j]).0 < n && edges@[j].1 < n,
            decreases edges@.len() - k,
        {
            let (u, v) = edges[k];
            if u >= n || v >= n {
                return Err(GraphError::OutOfRangeVertex);
            }
            k += 1;
        }
        let mut outedges: AdjacencyLists = Vec::new();
        let mut inedges: AdjacencyLists = Vec::new();
        let mut i: usize = 0;
        while i < n
            invariant
                i <= n,
                outedges@.len() == i,
                inedges@.len() == i,
                forall|w: int| 0 <= w < i ==> (#[trigger] outedges@[w])@.len() == 0,
                forall|w: int| 0 <= w < i ==> (#[trigger] inedges@[w])@.len() == 0,
            decreases n - i,
        {
            outedges.push(Vec::new());
            inedges.push(Vec::new());
            i += 1;
        }
        let mut g = Graph { n, outedges, inedges };
        g.add_directed_edges(edges);
        g.sort_graph_lists();
        proof {
            assert forall|u: Vertex, v: Vertex| u < g.n implies #[trigger] occ(
                g.outedges@[u as int]@,
                v,
            ) == edge_occ(edges@, u, v) by {
                assert(Seq::<Vertex>::empty() + targets_of(edges@, u) =~= targets_of(edges@, u));
                lemma_targets_occ(edges@, u, v);
            }
            assert forall|u: Vertex, v: Vertex| v < g.n implies #[trigger] occ(
                g.inedges@[v as int]@,
                u,
            ) == edge_occ(edges@, u, v) by {
                assert(Seq::<Vertex>::empty() + sources_of(edges@, v) =~= sources_of(edges@, v));
                lemma_sources_occ(edges@, u, v);
            }
            assert forall|u: int, i2: int|
                0 <= u < g.n && 0 <= i2 < g.outedges@[u]@.len() implies (
            #[trigger] g.outedges@[u]@[i2]) < g.n by {
                let y = g.outedges@[u]@[i2];
                lemma_occ_at_index(g.outedges@[u]@, i2);
                if y >= n {
                    lemma_targets_occ(edges@, u as Vertex, y);
                    lemma_edge_occ_in_range(edges@, u as Vertex, y, n);
                }
            }
            assert forall|v: int, i2: int|
                0 <= v < g.n && 0 <= i2 < g.inedges@[v]@.len() implies (
            #[trigger] g.inedges@[v]@[i2]) < g.n by {
                let y = g.inedges@[v]@[i2];
                lemma_occ_at_index(g.inedges@[v]@, i2);
                if y >= n {
                    lemma_sources_occ(edges@, y, v as Vertex);
                    lemma_edge_occ_in_range(edges@, y, v as Vertex, n);
                }
            }
        }
        Ok(g)
    }
}

/// An element standing at an index occurs at least once.
pub proof fn lemma_occ_at_index(s: Seq<Vertex>, i: int)
    requires
        0 <= i < s.len(),
    ensures
        occ(s, s[i]) >= 1,
{
    crate::seq_util::lemma_occ_contains(s, s[i]);
}

/// An edge list whose endpoints all lie below `n` holds no edge touching a
/// vertex at or above `n`.
pub proof fn lemma_edge_occ_in_range(edges: Seq<(Vertex, Vertex)>, u: Vertex, v: Vertex, n: usize)
    requires
        edges_in_range(edges, n),
        u >= n || v >= n,
    ensures
        edge_occ(edges, u, v) == 0,
    decreases edges.len(),
{
    if edges.len() > 0 {
        assert(edges.last() == edges[edges.len() - 1]);
        assert(forall|k: int| 0 <= k < edges.len() - 1 ==> edges.drop_last()[k] == edges[k]);
        lemma_edge_occ_in_range(edges.drop_last(), u, v, n);
    }
}

/// Appends `x` into an ascending vector, before the first strictly larger
/// element, keeping the order ascending.
fn sorted_insert(v: &mut Vec<Vertex>, x: Vertex)
    requires
        sorted(old(v)@),
    ensures
        sorted(final(v)@),
        final(v)@.len() == old(v)@.len() + 1,
        forall|y: Vertex| occ(final(v)@, y) == occ(old(v)@, y) + if y == x {
            1nat
        } else {
            0nat
        },
{
    let mut p: usize = 0;
    while p < v.len() && v[p] <= x
        invariant
            p <= v@.len(),
            sorted(v@),
            v@ == old(v)@,
            forall|k: int| 0 <= k < p ==> v@[k] <= x,
        decreases v@.len() - p,
    {
        p += 1;
    }
    assert(forall|k: int| p <= k < v@.len() ==> v@[k] > x);
    v.insert(p, x);
    proof {
        let s = old(v)@;
        let t = v@;
        assert(t =~= s.take(p as int) + Seq::empty().push(x) + s.skip(p as int));
        assert forall|y: Vertex| occ(t, y) == occ(s, y) + if y == x {
            1nat
        } else {
            0nat
        } by {
            lemma_occ_concat(s.take(p as int) + Seq::empty().push(x), s.skip(p as int), y);
            lemma_occ_concat(s.take(p as int), Seq::empty().push(x), y);
            lemma_occ_push(Seq::<Vertex>::empty(), x, y);
            lemma_occ_concat(s.take(p as int), s.skip(p as int), y);
            assert(s =~= s.take(p as int) + s.skip(p as int));
        }
        assert forall|a: int, b: int| 0 <= a < b < t.len() implies t[a] <= t[b] by {
            assert(forall|k: int| 0 <= k < p ==> t[k] == s[k]);
            assert(t[p as int] == x);
            assert(forall|k: int| p < k < t.len() ==> t[k] == s[k - 1]);
        }
    }
}

/// Returns the elements of `v` in ascending order.
fn sort_ascending(v: &Vec<Vertex>) -> (r: Vec<Vertex>)
    ensures
        sorted(r@),
        r@.len() == v@.len(),
        forall|y: Vertex| occ(r@, y) == occ(v@, y),
{
    let mut r: Vec<Vertex> = Vec::new();
    let mut i: usize = 0;
    while i < v.len()
        invariant
            i <= v@.len(),
            sorted(r@),
            r@.len() == i,
            forall|y: Vertex| occ(r@, y) == occ(v@.take(i as int), y),
        decreases v@.len() - i,
    {
        let x = v[i];
        proof {
            assert forall|y: Vertex| occ(v@.take(i + 1), y) == occ(v@.take(i as int), y) + if y == x {
                1nat
            } else {
                0nat
            } by {
                lemma_occ_take_step(v@, i as int, y);
            }
        }
        sorted_insert(&mut r, x);
        i += 1;
    }
    proof {
        assert(v@.take(v@.len() as int) =~= v@);
    }
    r
}

} // verus!
