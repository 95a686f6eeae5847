//! Contracts on the caller-supplied vertex and weight types.
//!
//! A graph is polymorphic in its vertex type: any uniquely-identifying,
//! comparable, cloneable value will do. The library models a graph over
//! the *views* of such values (`<V as View>::V`), so the two operations
//! it needs — an equality test and a copy — carry contracts stated over
//! views. Integers are their own views; a `String` views as its
//! character sequence.

use vstd::prelude::*;

verus! {

/// A value usable as a vertex: it can be compared for identity and
/// copied, both faithfully to its view.
pub trait VertexKey: View + Sized {
    /// Decides whether two vertices are the same vertex.
    fn key_eq(&self, other: &Self) -> (r: bool)
        ensures
            r == (self@ == other@),
    ;

    /// Copies the vertex, keeping its identity.
    fn dup(&self) -> (r: Self)
        ensures
            r@ == self@,
    ;
}

/// A value usable as an edge weight: it can be copied faithfully to
/// its view.
pub trait EdgeWeight: View + Sized {
    /// Copies the weight, keeping its value.
    fn dup(&self) -> (r: Self)
        ensures
            r@ == self@,
    ;
}

impl VertexKey for u32 {
    fn key_eq(&self, other: &Self) -> bool {
        *self == *other
    }

    fn dup(&self) -> Self {
        *self
    }
}

impl VertexKey for u64 {
    fn key_eq(&self, other: &Self) -> bool {
        *self == *other
    }

    fn dup(&self) -> Self {
        *self
    }
}

impl VertexKey for usize {
    fn key_eq(&self, other: &Self) -> bool {
        *self == *other
    }

    fn dup(&self) -> Self {
        *self
    }
}

impl VertexKey for i32 {
    fn key_eq(&self, other: &Self) -> bool {
        *self == *other
    }

    fn dup(&self) -> Self {
        *self
    }
}

impl VertexKey for i64 {
    fn key_eq(&self, other: &Self) -> bool {
        *self == *other
    }

    fn dup(&self) -> Self {
        *self
    }
}

impl VertexKey for char {
    fn key_eq(&self, other: &Self) -> bool {
        *self == *other
    }

    fn dup(&self) -> Self {
        *self
    }
}

impl VertexKey for String {
    fn key_eq(&self, other: &Self) -> bool {
        *self == *other
    }

    fn dup(&self) -> Self {
        self.clone()
    }
}

impl EdgeWeight for () {
    fn dup(&self) -> Self {
    }
}

impl EdgeWeight for u32 {
    fn dup(&self) -> Self {
        *self
    }
}

impl EdgeWeight for u64 {
    fn dup(&self) -> Self {
        *self
    }
}

impl EdgeWeight for usize {
    fn dup(&self) -> Self {
        *self
    }
}

impl EdgeWeight for i32 {
    fn dup(&self) -> Self {
        *self
    }
}

impl EdgeWeight for i64 {
    fn dup(&self) -> Self {
        *self
    }
}

impl EdgeWeight for String {
    fn dup(&self) -> Self {
        self.clone()
    }
}

} // verus!
