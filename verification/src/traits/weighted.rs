//! The weighted graph capabilities: an additional per-edge weight
//! channel, keyed by ordered vertex pairs and stored independently of
//! the adjacency relation. An unweighted edge simply has no entry in
//! the weight map, but a well-formed graph never records a weight for
//! a pair that is not an edge.

use vstd::prelude::*;

use crate::error::GraphError;
use crate::traits::graph::Graph;
use crate::traits::graph::GraphMut;
use crate::traits::value::EdgeWeight;

verus! {

/// The read-only weighted capability.
pub trait WeightedGraph: Graph {
    /// The caller-supplied weight type.
    type Weight: EdgeWeight;

    /// The recorded weights, as views, keyed by ordered pairs of
    /// vertex views.
    spec fn weight_map(&self) -> Map<
        (<Self::Vertex as View>::V, <Self::Vertex as View>::V),
        <Self::Weight as View>::V,
    >;

    /// Law: a recorded weight implies the adjacency relation, so
    /// removing an edge or a vertex also discards its weights.
    proof fn weight_implies_edge(&self, u: <Self::Vertex as View>::V, v: <Self::Vertex as View>::V)
        requires
            self.wf(),
            self.weight_map().contains_key((u, v)),
        ensures
            self.neighbor_set(u).contains(v),
    ;

    /// Law: in a well-formed undirected graph the weight channel is
    /// symmetric.
    proof fn undirected_weights_symmetric(
        &self,
        u: <Self::Vertex as View>::V,
        v: <Self::Vertex as View>::V,
    )
        requires
            self.wf(),
            !self.directed(),
            self.weight_map().contains_key((u, v)),
        ensures
            self.weight_map().contains_key((v, u)),
            self.weight_map()[(v, u)] == self.weight_map()[(u, v)],
    ;

    /// The weight recorded for the ordered pair `(u, v)`, if any.
    /// This does not fall back to checking adjacency: an edge without
    /// a recorded weight yields `None`.
    fn edge_weight<'a>(&'a self, u: &Self::Vertex, v: &Self::Vertex) -> (r: Option<
        &'a Self::Weight,
    >)
        requires
            self.wf(),
        ensures
            match r {
                Some(w) => self.weight_map().contains_key((u@, v@)) && w@ == self.weight_map()[
                    (u@, v@)
                ],
                None => !self.weight_map().contains_key((u@, v@)),
            },
    ;
}

/// The weight map of `g` with every entry keyed by `x` discarded.
pub open spec fn weights_without<G: WeightedGraph>(g: &G, x: <G::Vertex as View>::V) -> Map<
    (<G::Vertex as View>::V, <G::Vertex as View>::V),
    <G::Weight as View>::V,
> {
    Map::new(
        |k: (<G::Vertex as View>::V, <G::Vertex as View>::V)|
            g.weight_map().contains_key(k) && k.0 != x && k.1 != x,
        |k: (<G::Vertex as View>::V, <G::Vertex as View>::V)| g.weight_map()[k],
    )
}

/// The weight map of `g` with every entry keyed by a vertex of `s`
/// discarded.
pub open spec fn weights_outside<G: WeightedGraph>(g: &G, s: Set<<G::Vertex as View>::V>) -> Map<
    (<G::Vertex as View>::V, <G::Vertex as View>::V),
    <G::Weight as View>::V,
> {
    Map::new(
        |k: (<G::Vertex as View>::V, <G::Vertex as View>::V)|
            g.weight_map().contains_key(k) && !s.contains(k.0) && !s.contains(k.1),
        |k: (<G::Vertex as View>::V, <G::Vertex as View>::V)| g.weight_map()[k],
    )
}

/// Cascade integrity: a vertex absent from a well-formed graph is
/// listed in no neighbor set and keyed in no weight entry; together
/// with the contract of `remove_vertex` this says that removing a
/// vertex leaves no trace of it behind.
pub proof fn lemma_cascade_integrity<G: WeightedGraph>(g: &G, x: <G::Vertex as View>::V)
    requires
        g.wf(),
        !g.vertex_set().contains(x),
    ensures
        forall|y: <G::Vertex as View>::V| !(#[trigger] g.neighbor_set(y)).contains(x),
        g.neighbor_set(x).is_empty(),
        forall|k: (<G::Vertex as View>::V, <G::Vertex as View>::V)|
            k.0 == x || k.1 == x ==> !(#[trigger] g.weight_map().contains_key(k)),
{
    g.neighbors_are_vertices();
    assert forall|y: <G::Vertex as View>::V| !(#[trigger] g.neighbor_set(y)).contains(x) by {
        if g.neighbor_set(y).contains(x) {
            assert(g.vertex_set().contains(x));
        }
    }
    assert(g.neighbor_set(x).is_empty()) by {
        if !g.neighbor_set(x).is_empty() {
            let y = choose|y: <G::Vertex as View>::V| g.neighbor_set(x).contains(y);
            assert(g.vertex_set().contains(x));
        }
    }
    assert forall|k: (<G::Vertex as View>::V, <G::Vertex as View>::V)|
        k.0 == x || k.1 == x implies !(#[trigger] g.weight_map().contains_key(k)) by {
        if g.weight_map().contains_key(k) {
            g.weight_implies_edge(k.0, k.1);
            assert(g.vertex_set().contains(k.0) && g.vertex_set().contains(k.1));
        }
    }
}

/// The mutable weighted capability.
pub trait WeightedGraphMut: WeightedGraph + GraphMut {
    /// Records `weight` for the edge from `u` to `v`, creating the
    /// adjacency relation if it does not exist yet (unlike `add_edge`,
    /// which requires it not to), and mirroring both the relation and
    /// the weight when undirected. An existing weight is overwritten.
    /// Fails with `VertexNotFound` exactly when an endpoint is absent.
    fn set_edge_weight(
        &mut self,
        u: &Self::Vertex,
        v: &Self::Vertex,
        weight: Self::Weight,
    ) -> (r: Result<(), GraphError>)
        requires
            old(self).wf(),
        ensures
            final(self).wf(),
            final(self).directed() == old(self).directed(),
            match r {
                Ok(()) => old(self).vertex_set().contains(u@) && old(self).vertex_set().contains(
                    v@,
                ) && final(self).vertex_set() == old(self).vertex_set() && final(self).neighbor_set(
                    u@,
                ) == old(self).neighbor_set(u@).insert(v@) && (old(self).directed() ==> final(self).neighbor_sets_unchanged_except(old(self), u@) && final(self).weight_map() == old(self).weight_map().insert((u@, v@), weight@)) && (!old(self).directed() ==> final(self).neighbor_set(v@) == old(self).neighbor_set(v@).insert(u@) && final(self).neighbor_sets_unchanged_except_pair(old(self), u@, v@) && final(self).weight_map()
                    == old(self).weight_map().insert((u@, v@), weight@).insert((v@, u@), weight@)),
                Err(e) => e == GraphError::VertexNotFound && (!old(self).vertex_set().contains(u@)
                    || !old(self).vertex_set().contains(v@)) && *final(self) == *old(self),
            },
    ;
}

} // verus!
