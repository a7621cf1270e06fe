//! The capability that every graph representation has: its vertices, its
//! edges and the two endpoints of each edge.

use vstd::prelude::*;
use crate::map::{MapGet, MapMut};
use crate::seq_facts::{enumerates, lemma_enumerated_len};

verus! {

/// Represents a [directed graph](https://en.wikipedia.org/wiki/Directed_graph).
pub trait Digraph {
    /// The type of a vertex.
    type Vert: Copy + core::fmt::Debug + Eq + core::hash::Hash + Ord;

    /// The type of an edge.
    type Edge: Copy + core::fmt::Debug + Eq + core::hash::Hash + Ord;

    /// What holds of every graph between two calls.
    spec fn wf(&self) -> bool;

    /// The vertices of the graph.
    spec fn vert_set(&self) -> Set<Self::Vert>;

    /// The edges of the graph.
    spec fn edge_set(&self) -> Set<Self::Edge>;

    /// Whether `all` is a list in which `verts` hands out the vertices. A
    /// representation that keeps its vertices in an order admits that order
    /// alone.
    spec fn lists_verts(&self, all: Seq<Self::Vert>) -> bool;

    /// Whether `all` is a list in which `edges` hands out the edges. A
    /// representation that keeps its edges in an order admits that order
    /// alone.
    spec fn lists_edges(&self, all: Seq<Self::Edge>) -> bool;

    /// The vertices at the tail and head of an edge.
    spec fn endpoints_spec(&self, e: Self::Edge) -> (Self::Vert, Self::Vert);

    /// Both endpoints of an edge of the graph are vertices of the graph.
    proof fn lemma_endpoints_are_verts(&self, e: Self::Edge)
        requires
            self.wf(),
            self.edge_set().contains(e),
        ensures
            self.vert_set().contains(self.endpoints_spec(e).0),
            self.vert_set().contains(self.endpoints_spec(e).1),
    ;

    /// A graph has finitely many vertices and edges.
    proof fn lemma_finite(&self)
        requires
            self.wf(),
        ensures
            self.vert_set().finite(),
            self.edge_set().finite(),
    ;

    /// Returns whether two vertex handles are the same handle.
    fn same_vert(a: Self::Vert, b: Self::Vert) -> (same: bool)
        ensures
            same == (a == b),
    ;

    /// Returns whether two edge handles are the same handle.
    fn same_edge(a: Self::Edge, b: Self::Edge) -> (same: bool)
        ensures
            same == (a == b),
    ;

    /// Returns the vertices at the tail and head of an edge.
    fn endpoints(&self, e: Self::Edge) -> (ends: (Self::Vert, Self::Vert))
        requires
            self.wf(),
            self.edge_set().contains(e),
        ensures
            ends == self.endpoints_spec(e),
    ;

    /// Returns the vertex at the tail of an edge.
    fn tail(&self, e: Self::Edge) -> (v: Self::Vert)
        requires
            self.wf(),
            self.edge_set().contains(e),
        ensures
            v == self.endpoints_spec(e).0,
    {
        self.endpoints(e).0
    }

    /// Returns the vertex at the head of an edge.
    fn head(&self, e: Self::Edge) -> (v: Self::Vert)
        requires
            self.wf(),
            self.edge_set().contains(e),
        ensures
            v == self.endpoints_spec(e).1,
    {
        self.endpoints(e).1
    }

    /// Returns all vertices, each once, in the order of the representation
    /// where it keeps one.
    fn verts(&self) -> (all: Vec<Self::Vert>)
        requires
            self.wf(),
        ensures
            enumerates(all@, self.vert_set()),
            self.lists_verts(all@),
    ;

    /// Returns all edges, each once, in the order of the representation
    /// where it keeps one.
    fn edges(&self) -> (all: Vec<Self::Edge>)
        requires
            self.wf(),
        ensures
            enumerates(all@, self.edge_set()),
            self.lists_edges(all@),
    ;
}

/// The maps from vertices to values of type `T` that a graph offers.
pub trait VertMaps<T: Copy>: Digraph {
    /// A mutable map from vertices to values.
    type VertMap: MapMut<Self::Vert, Value = T>;

    /// Constructs a new mutable mapping from vertices to values with all
    /// vertices initially mapped to the given default, those that the graph
    /// gets later too.
    fn vert_map(&self, default: T) -> (m: Self::VertMap)
        ensures
            forall|v: Self::Vert| m.defined(v) && m.at(v) == default,
    ;

    /// Constructs a new mutable mapping from vertices to values with all
    /// vertices initially mapped to the given default, for use while the
    /// graph does not change.
    fn ephemeral_vert_map(&self, default: T) -> (m: Self::VertMap)
        ensures
            forall|v: Self::Vert| m.defined(v) && m.at(v) == default,
    ;

    /// Constructs a new mutable mapping from vertices to values with all
    /// vertices initially mapped to the default of the values' type.
    fn default_vert_map(&self) -> (m: Self::VertMap) where T: Default
        ensures
            forall|v: Self::Vert| m.defined(v),
            forall|u: Self::Vert, v: Self::Vert| m.at(u) == m.at(v),
            forall|v: Self::Vert| call_ensures(T::default, (), #[trigger] m.at(v)),
    {
        self.vert_map(T::default())
    }

    /// Constructs a new mutable mapping from vertices to values with all
    /// vertices initially mapped to the default of the values' type, for use
    /// while the graph does not change.
    fn default_ephemeral_vert_map(&self) -> (m: Self::VertMap) where T: Default
        ensures
            forall|v: Self::Vert| m.defined(v),
            forall|u: Self::Vert, v: Self::Vert| m.at(u) == m.at(v),
            forall|v: Self::Vert| call_ensures(T::default, (), #[trigger] m.at(v)),
    {
        self.ephemeral_vert_map(T::default())
    }
}

/// The maps from edges to values of type `T` that a graph offers.
pub trait EdgeMaps<T: Copy>: Digraph {
    /// A mutable map from edges to values.
    type EdgeMap: MapMut<Self::Edge, Value = T>;

    /// Constructs a new mutable mapping from edges to values with all edges
    /// initially mapped to the given default, those that the graph gets later
    /// too.
    fn edge_map(&self, default: T) -> (m: Self::EdgeMap)
        ensures
            forall|e: Self::Edge| m.defined(e) && m.at(e) == default,
    ;

    /// Constructs a new mutable mapping from edges to values with all edges
    /// initially mapped to the given default, for use while the graph does
    /// not change.
    fn ephemeral_edge_map(&self, default: T) -> (m: Self::EdgeMap)
        ensures
            forall|e: Self::Edge| m.defined(e) && m.at(e) == default,
    ;

    /// Constructs a new mutable mapping from edges to values with all edges
    /// initially mapped to the default of the values' type.
    fn default_edge_map(&self) -> (m: Self::EdgeMap) where T: Default
        ensures
            forall|e: Self::Edge| m.defined(e),
            forall|d: Self::Edge, e: Self::Edge| m.at(d) == m.at(e),
            forall|e: Self::Edge| call_ensures(T::default, (), #[trigger] m.at(e)),
    {
        self.edge_map(T::default())
    }

    /// Constructs a new mutable mapping from edges to values with all edges
    /// initially mapped to the default of the values' type, for use while
    /// the graph does not change.
    fn default_ephemeral_edge_map(&self) -> (m: Self::EdgeMap) where T: Default
        ensures
            forall|e: Self::Edge| m.defined(e),
            forall|d: Self::Edge, e: Self::Edge| m.at(d) == m.at(e),
            forall|e: Self::Edge| call_ensures(T::default, (), #[trigger] m.at(e)),
    {
        self.ephemeral_edge_map(T::default())
    }
}

/// Represents a directed graph with a known order.
pub trait ExactOrderDigraph: Digraph {
    /// Returns the order of the graph, that is, the number of vertices.
    fn order(&self) -> (n: usize)
        requires
            self.wf(),
        ensures
            self.vert_set().finite(),
            n == self.vert_set().len(),
    ;
}

impl<G: Digraph> ExactOrderDigraph for G {
    fn order(&self) -> (n: usize) {
        let all = self.verts();
        proof {
            lemma_enumerated_len(all@, self.vert_set());
        }
        all.len()
    }
}

/// Represents a directed graph with a known size.
pub trait ExactSizeDigraph: Digraph {
    /// Returns the size of the graph, that is, the number of edges.
    fn size(&self) -> (n: usize)
        requires
            self.wf(),
        ensures
            self.edge_set().finite(),
            n == self.edge_set().len(),
    ;
}

impl<G: Digraph> ExactSizeDigraph for G {
    fn size(&self) -> (n: usize) {
        let all = self.edges();
        proof {
            lemma_enumerated_len(all@, self.edge_set());
        }
        all.len()
    }
}

} // verus!
