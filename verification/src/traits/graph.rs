//! The read-only and mutable graph capabilities.
//!
//! A graph is modeled by four spec-level views: its set of vertices,
//! a neighbor set for each vertex, its directedness, and a
//! well-formedness predicate `wf` that every operation preserves.
//! All model sets range over vertex *views* (`<V as View>::V`), so the
//! contracts are independent of how the caller's vertex type
//! represents a value.

use vstd::prelude::*;

use crate::error::GraphError;
use crate::traits::value::VertexKey;

verus! {

/// The views of a sequence of vertices, in order.
pub open spec fn vertex_views<V: VertexKey>(s: Seq<V>) -> Seq<<V as View>::V> {
    s.map_values(|x: V| x@)
}

/// The read-only graph capability: queries over a fixed structure.
pub trait Graph: Sized {
    /// The caller-supplied vertex type.
    type Vertex: VertexKey;

    /// The structural invariant that constructors establish and every
    /// operation preserves.
    spec fn wf(&self) -> bool;

    /// The set of vertices, as views.
    spec fn vertex_set(&self) -> Set<<Self::Vertex as View>::V>;

    /// The neighbors of `v`, as views; empty when `v` is absent.
    spec fn neighbor_set(&self, v: <Self::Vertex as View>::V) -> Set<
        <Self::Vertex as View>::V,
    >;

    /// Whether edges are ordered pairs (directed) or mirrored
    /// (undirected).
    spec fn directed(&self) -> bool;

    /// Every ordered pair `(u, v)` such that `v` is a neighbor of `u`.
    /// In an undirected graph each edge contributes two such pairs,
    /// except that a self-loop contributes one.
    open spec fn edge_pair_set(&self) -> Set<(<Self::Vertex as View>::V, <Self::Vertex as View>::V)> {
        Set::new(
            |p: (<Self::Vertex as View>::V, <Self::Vertex as View>::V)|
                self.neighbor_set(p.0).contains(p.1),
        )
    }

    /// Whether every neighbor set of `self` equals that of `prior`.
    open spec fn neighbor_sets_unchanged(&self, prior: &Self) -> bool {
        forall|x: <Self::Vertex as View>::V|
            #[trigger] self.neighbor_set(x) == prior.neighbor_set(x)
    }

    /// Whether every neighbor set of `self`, except possibly that of
    /// `a`, equals that of `prior`.
    open spec fn neighbor_sets_unchanged_except(
        &self,
        prior: &Self,
        a: <Self::Vertex as View>::V,
    ) -> bool {
        forall|x: <Self::Vertex as View>::V|
            x != a ==> #[trigger] self.neighbor_set(x) == prior.neighbor_set(x)
    }

    /// Whether every neighbor set of `self`, except possibly those of
    /// `a` and `b`, equals that of `prior`.
    open spec fn neighbor_sets_unchanged_except_pair(
        &self,
        prior: &Self,
        a: <Self::Vertex as View>::V,
        b: <Self::Vertex as View>::V,
    ) -> bool {
        forall|x: <Self::Vertex as View>::V|
            x != a && x != b ==> #[trigger] self.neighbor_set(x) == prior.neighbor_set(x)
    }

    /// Whether every neighbor set of `self` other than that of
    /// `removed` equals that of `prior` with `removed` taken out.
    open spec fn neighbor_sets_shrunk(
        &self,
        prior: &Self,
        removed: <Self::Vertex as View>::V,
    ) -> bool {
        forall|x: <Self::Vertex as View>::V|
            x != removed ==> #[trigger] self.neighbor_set(x) == prior.neighbor_set(x).remove(
                removed,
            )
    }

    /// Whether every neighbor set of `self` outside `removed` equals
    /// that of `prior` with `removed` taken out.
    open spec fn neighbor_sets_pruned(
        &self,
        prior: &Self,
        removed: Set<<Self::Vertex as View>::V>,
    ) -> bool {
        forall|x: <Self::Vertex as View>::V|
            !removed.contains(x) ==> #[trigger] self.neighbor_set(x) == prior.neighbor_set(
                x,
            ).difference(removed)
    }

    /// Every vertex with no neighbors (for a directed graph: with no
    /// outgoing edges).
    open spec fn isolated_set(&self) -> Set<<Self::Vertex as View>::V> {
        Set::new(
            |v: <Self::Vertex as View>::V|
                self.vertex_set().contains(v) && self.neighbor_set(v).is_empty(),
        )
    }

    /// Law: a well-formed graph has finitely many vertices, and each
    /// neighbor set is finite.
    proof fn finite_model(&self)
        requires
            self.wf(),
        ensures
            self.vertex_set().finite(),
            forall|v: <Self::Vertex as View>::V| (#[trigger] self.neighbor_set(v)).finite(),
    ;

    /// Law: neighbors are vertices, and an absent vertex has no
    /// neighbors.
    proof fn neighbors_are_vertices(&self)
        requires
            self.wf(),
        ensures
            forall|u: <Self::Vertex as View>::V, v: <Self::Vertex as View>::V|
                #[trigger] self.neighbor_set(u).contains(v)
                    ==> self.vertex_set().contains(u) && self.vertex_set().contains(v),
    ;

    /// Law: in a well-formed undirected graph the neighbor relation is
    /// symmetric.
    proof fn undirected_edges_symmetric(&self)
        requires
            self.wf(),
            !self.directed(),
        ensures
            forall|u: <Self::Vertex as View>::V, v: <Self::Vertex as View>::V|
                #[trigger] self.neighbor_set(u).contains(v) == #[trigger] self.neighbor_set(
                    v,
                ).contains(u),
    ;

    /// All vertices, in unspecified order, each exactly once.
    fn vertices(&self) -> (r: Vec<Self::Vertex>)
        requires
            self.wf(),
        ensures
            vertex_views(r@).no_duplicates(),
            vertex_views(r@).to_set() == self.vertex_set(),
    ;

    /// The neighbors of `v`, each exactly once, or `None` when `v` is
    /// absent — absence is signaled structurally, never as an error.
    fn neighbors(&self, v: &Self::Vertex) -> (r: Option<Vec<Self::Vertex>>)
        requires
            self.wf(),
        ensures
            match r {
                Some(ns) => self.vertex_set().contains(v@) && vertex_views(ns@).no_duplicates()
                    && vertex_views(ns@).to_set() == self.neighbor_set(v@),
                None => !self.vertex_set().contains(v@),
            },
    ;

    /// Whether `v` is a vertex of the graph.
    fn contains_vertex(&self, v: &Self::Vertex) -> (r: bool)
        requires
            self.wf(),
        ensures
            r == self.vertex_set().contains(v@),
    ;

    /// Whether the edge from `u` to `v` is in the graph.
    fn contains_edge(&self, u: &Self::Vertex, v: &Self::Vertex) -> (r: bool)
        requires
            self.wf(),
        ensures
            r == self.neighbor_set(u@).contains(v@),
    ;

    /// The directedness fixed at construction.
    fn is_directed(&self) -> (r: bool)
        ensures
            r == self.directed(),
    ;

    /// The number of vertices.
    fn order(&self) -> (r: usize)
        requires
            self.wf(),
        ensures
            r == self.vertex_set().len(),
    ;

    /// The number of edges: for a directed graph the number of
    /// neighbor pairs; for an undirected graph half of it, since the
    /// symmetric representation stores each edge twice.
    fn edge_count(&self) -> (r: usize)
        requires
            self.wf(),
            self.edge_pair_set().len() <= usize::MAX,
        ensures
            r == (if self.directed() {
                self.edge_pair_set().len()
            } else {
                self.edge_pair_set().len() / 2
            }),
    ;

    /// The number of neighbors of `v` (out-degree for a directed
    /// graph), or `None` when `v` is absent.
    fn degree(&self, v: &Self::Vertex) -> (r: Option<usize>)
        requires
            self.wf(),
        ensures
            match r {
                Some(d) => self.vertex_set().contains(v@) && d == self.neighbor_set(v@).len(),
                None => !self.vertex_set().contains(v@),
            },
    ;

    /// All vertices with no neighbors, each exactly once.
    fn get_isolated_vertices(&self) -> (r: Vec<Self::Vertex>)
        requires
            self.wf(),
        ensures
            vertex_views(r@).no_duplicates(),
            vertex_views(r@).to_set() == self.isolated_set(),
    ;

    /// Whether some vertex has no neighbors.
    fn has_isolated_vertex(&self) -> (r: bool)
        requires
            self.wf(),
        ensures
            r == !self.isolated_set().is_empty(),
    ;
}

/// The unordered pair `{a, b}` (a single-element set when `a == b`).
pub open spec fn pair_set<T>(a: T, b: T) -> Set<T> {
    Set::empty().insert(a).insert(b)
}

/// The unordered pairs covered by a set of ordered pairs.
pub open spec fn unordered_pairs<T>(e: Set<(T, T)>) -> Set<Set<T>> {
    Set::new(|s: Set<T>| exists|p: (T, T)| e.contains(p) && s == pair_set(p.0, p.1))
}

/// A finite, symmetric, irreflexive set of ordered pairs covers
/// exactly half as many unordered pairs.
pub(crate) proof fn lemma_symmetric_pairs_halve<T>(e: Set<(T, T)>)
    requires
        e.finite(),
        forall|p: (T, T)| #[trigger] e.contains(p) ==> e.contains((p.1, p.0)),
        forall|p: (T, T)| #[trigger] e.contains(p) ==> p.0 != p.1,
    ensures
        unordered_pairs(e).finite(),
        e.len() == 2 * unordered_pairs(e).len(),
    decreases e.len(),
{
    if e.len() == 0 {
        assert(e =~= Set::empty());
        assert(unordered_pairs(e) =~= Set::empty()) by {
            assert forall|s: Set<T>| !unordered_pairs(e).contains(s) by {
                if unordered_pairs(e).contains(s) {
                    let p = choose|p: (T, T)| e.contains(p) && s == pair_set(p.0, p.1);
                    assert(false);
                }
            }
        }
    } else {
        let p = e.choose();
        assert(e.contains(p));
        let q = (p.1, p.0);
        assert(e.contains(q));
        assert(p != q);
        let e2 = e.remove(p).remove(q);
        assert(e2.len() == e.len() - 2);
        assert forall|x: (T, T)| #[trigger] e2.contains(x) implies e2.contains((x.1, x.0)) by {
            assert(e.contains(x));
            assert(e.contains((x.1, x.0)));
            assert((x.1, x.0) != p) by {
                if (x.1, x.0) == p {
                    assert(x == q);
                }
            }
            assert((x.1, x.0) != q) by {
                if (x.1, x.0) == q {
                    assert(x == p);
                }
            }
        }
        lemma_symmetric_pairs_halve(e2);
        let ps = pair_set(p.0, p.1);
        assert(unordered_pairs(e) =~= unordered_pairs(e2).insert(ps)) by {
            assert forall|s: Set<T>|
                unordered_pairs(e).contains(s) == (unordered_pairs(e2).contains(s) || s
                    == ps) by {
                if unordered_pairs(e).contains(s) {
                    let x = choose|x: (T, T)| e.contains(x) && s == pair_set(x.0, x.1);
                    if x == p {
                        assert(s == ps);
                    } else if x == q {
                        assert(s =~= ps);
                    } else {
                        assert(e2.contains(x));
                        assert(unordered_pairs(e2).contains(s));
                    }
                }
                if unordered_pairs(e2).contains(s) {
                    let x = choose|x: (T, T)| e2.contains(x) && s == pair_set(x.0, x.1);
                    assert(e.contains(x));
                    assert(unordered_pairs(e).contains(s));
                }
                if s == ps {
                    assert(e.contains(p) && ps == pair_set(p.0, p.1));
                    assert(unordered_pairs(e).contains(ps));
                }
            }
        }
        assert(!unordered_pairs(e2).contains(ps)) by {
            if unordered_pairs(e2).contains(ps) {
                let x = choose|x: (T, T)| e2.contains(x) && ps == pair_set(x.0, x.1);
                assert(e.contains(x));
                assert(x.0 != x.1 && p.0 != p.1);
                assert(pair_set(x.0, x.1).contains(x.0) && pair_set(x.0, x.1).contains(x.1));
                assert(ps.contains(x.0) && ps.contains(x.1));
                assert(x.0 == p.0 || x.0 == p.1);
                assert(x.1 == p.0 || x.1 == p.1);
                assert(x == p || x == q);
                assert(false);
            }
        }
        assert(unordered_pairs(e).len() == unordered_pairs(e2).len() + 1);
    }
}

/// Count consistency: a duplicate-free enumeration of the vertices,
/// such as `vertices` returns, has exactly `order` elements.
pub proof fn lemma_order_counts_vertices<G: Graph>(g: &G, vs: Seq<<G::Vertex as View>::V>)
    requires
        g.wf(),
        vs.no_duplicates(),
        vs.to_set() == g.vertex_set(),
    ensures
        vs.len() == g.vertex_set().len(),
{
    vs.unique_seq_to_set();
}

/// The mutable graph capability: structural mutation on top of the
/// read-only queries. Every operation either succeeds with the stated
/// effect or fails with the stated error kind and leaves the graph
/// unchanged.
pub trait GraphMut: Graph {
    /// Adds `vertex` with an empty neighbor set; fails with
    /// `VertexAlreadyExists` exactly when it is already present.
    fn add_vertex(&mut self, vertex: Self::Vertex) -> (r: Result<(), GraphError>)
        requires
            old(self).wf(),
        ensures
            final(self).wf(),
            final(self).directed() == old(self).directed(),
            match r {
                Ok(()) => !old(self).vertex_set().contains(vertex@) && final(self).vertex_set()
                    == old(self).vertex_set().insert(vertex@) && final(self).neighbor_sets_unchanged(old(self)),
                Err(e) => e == GraphError::VertexAlreadyExists && old(self).vertex_set().contains(
                    vertex@,
                ) && *final(self) == *old(self),
            },
    ;

    /// Removes `vertex`, every edge incident to it, and every weight
    /// recorded for such an edge; fails with `VertexNotFound` exactly
    /// when it is absent.
    fn remove_vertex(&mut self, vertex: &Self::Vertex) -> (r: Result<(), GraphError>)
        requires
            old(self).wf(),
        ensures
            final(self).wf(),
            final(self).directed() == old(self).directed(),
            match r {
                Ok(()) => old(self).vertex_set().contains(vertex@) && final(self).vertex_set()
                    == old(self).vertex_set().remove(vertex@) && final(self).neighbor_sets_shrunk(
                    old(self),
                    vertex@,
                ),
                Err(e) => e == GraphError::VertexNotFound && !old(self).vertex_set().contains(
                    vertex@,
                ) && *final(self) == *old(self),
            },
    ;

    /// Adds the edge from `u` to `v`, mirrored when undirected; fails
    /// with `VertexNotFound` exactly when an endpoint is absent, and
    /// with `EdgeAlreadyExists` exactly when both endpoints are present
    /// and the edge already exists.
    fn add_edge(&mut self, u: &Self::Vertex, v: &Self::Vertex) -> (r: Result<(), GraphError>)
        requires
            old(self).wf(),
        ensures
            final(self).wf(),
            final(self).directed() == old(self).directed(),
            match r {
                Ok(()) => old(self).vertex_set().contains(u@) && old(self).vertex_set().contains(
                    v@,
                ) && !old(self).neighbor_set(u@).contains(v@) && final(self).vertex_set() == old(self).vertex_set() && final(self).neighbor_set(u@) == old(self).neighbor_set(u@).insert(
                    v@,
                ) && (old(self).directed() ==> final(self).neighbor_sets_unchanged_except(
                    old(self),
                    u@,
                )) && (!old(self).directed() ==> final(self).neighbor_set(v@) == old(self).neighbor_set(v@).insert(u@) && final(self).neighbor_sets_unchanged_except_pair(
                    old(self),
                    u@,
                    v@,
                )),
                Err(e) => *final(self) == *old(self) && (((!old(self).vertex_set().contains(u@)
                    || !old(self).vertex_set().contains(v@)) && e == GraphError::VertexNotFound)
                    || (old(self).vertex_set().contains(u@) && old(self).vertex_set().contains(v@)
                    && old(self).neighbor_set(u@).contains(v@) && e
                    == GraphError::EdgeAlreadyExists)),
            },
    ;

    /// Removes the edge from `u` to `v` (both directions when
    /// undirected) and any weight recorded for it; fails with
    /// `EdgeNotFound` exactly when the edge is absent.
    fn remove_edge(&mut self, u: &Self::Vertex, v: &Self::Vertex) -> (r: Result<(), GraphError>)
        requires
            old(self).wf(),
        ensures
            final(self).wf(),
            final(self).directed() == old(self).directed(),
            match r {
                Ok(()) => old(self).neighbor_set(u@).contains(v@) && final(self).vertex_set()
                    == old(self).vertex_set() && final(self).neighbor_set(u@) == old(self).neighbor_set(u@).remove(v@) && (old(self).directed() ==> final(self).neighbor_sets_unchanged_except(old(self), u@)) && (!old(self).directed()
                    ==> final(self).neighbor_set(v@) == old(self).neighbor_set(v@).remove(u@)
                    && final(self).neighbor_sets_unchanged_except_pair(old(self), u@, v@)),
                Err(e) => e == GraphError::EdgeNotFound && !old(self).neighbor_set(u@).contains(v@)
                    && *final(self) == *old(self),
            },
    ;

    /// Removes every vertex that has no neighbors; fails with
    /// `VertexNotFound` exactly when there is none.
    fn remove_isolated_vertices(&mut self) -> (r: Result<(), GraphError>)
        requires
            old(self).wf(),
        ensures
            final(self).wf(),
            final(self).directed() == old(self).directed(),
            match r {
                Ok(()) => !old(self).isolated_set().is_empty() && final(self).vertex_set()
                    == old(self).vertex_set().difference(old(self).isolated_set()) && final(self).neighbor_sets_pruned(old(self), old(self).isolated_set()),
                Err(e) => e == GraphError::VertexNotFound && old(self).isolated_set().is_empty() && *final(self) == *old(self),
            },
    ;
}

} // verus!
