//! Module enabling abstraction over in- and out- adjacencies.

use vstd::prelude::*;
use crate::digraph::Digraph;
use crate::in_graph::InGraph;
use crate::out_graph::OutGraph;

verus! {

/// Adjacencies of a graph: a direction in which its edges are followed.
pub trait Adjacencies<G: Digraph> {
    /// The vertex from which an edge is an adjacency.
    spec fn from_spec(g: &G, e: G::Edge) -> G::Vert;

    /// The endpoint of the edge which it is not from per this definition of
    /// adjacency.
    spec fn to_spec(g: &G, e: G::Edge) -> G::Vert;

    /// Whether `all` is a list in which `of` hands out the edges adjacent to
    /// `v`.
    spec fn lists(g: &G, v: G::Vert, all: Seq<G::Edge>) -> bool;

    /// Both ends of an edge of the graph are vertices of the graph.
    proof fn lemma_ends_are_verts(g: &G, e: G::Edge)
        requires
            g.wf(),
            g.edge_set().contains(e),
        ensures
            g.vert_set().contains(Self::from_spec(g, e)),
            g.vert_set().contains(Self::to_spec(g, e)),
    ;

    /// Returns edges adjacent to a vertex, each once.
    fn of(g: &G, v: G::Vert) -> (all: Vec<G::Edge>)
        requires
            g.wf(),
            g.vert_set().contains(v),
        ensures
            all@.no_duplicates(),
            forall|e: G::Edge|
                #![trigger all@.contains(e)]
                #![trigger Self::from_spec(g, e)]
                all@.contains(e) <==> g.edge_set().contains(e) && Self::from_spec(g, e) == v,
            Self::lists(g, v, all@),
    ;

    /// Returns the vertex from which an edge is an adjacency, that is
    /// `e ∈ of(from(e))` holds.
    fn from(g: &G, e: G::Edge) -> (v: G::Vert)
        requires
            g.wf(),
            g.edge_set().contains(e),
        ensures
            v == Self::from_spec(g, e),
    ;

    /// The endpoint of the edge which it is not from per this definition of
    /// adjacency.
    fn to(g: &G, e: G::Edge) -> (v: G::Vert)
        requires
            g.wf(),
            g.edge_set().contains(e),
        ensures
            v == Self::to_spec(g, e),
    ;
}

/// The edges of `g` that are adjacent to `v` in the direction `A`.
pub open spec fn adjacent_set<G: Digraph, A: Adjacencies<G> + ?Sized>(g: &G, v: G::Vert) -> Set<
    G::Edge,
> {
    Set::new(|e: G::Edge| g.edge_set().contains(e) && A::from_spec(g, e) == v)
}

/// Out-adjacencies: an edge is followed from its tail to its head.
pub struct OutAdjacencies;

impl<G: OutGraph> Adjacencies<G> for OutAdjacencies {
    open spec fn lists(g: &G, v: G::Vert, all: Seq<G::Edge>) -> bool {
        g.lists_out_edges(v, all)
    }

    open spec fn from_spec(g: &G, e: G::Edge) -> G::Vert {
        g.endpoints_spec(e).0
    }

    open spec fn to_spec(g: &G, e: G::Edge) -> G::Vert {
        g.endpoints_spec(e).1
    }

    proof fn lemma_ends_are_verts(g: &G, e: G::Edge) {
        g.lemma_endpoints_are_verts(e);
    }

    fn of(g: &G, v: G::Vert) -> (all: Vec<G::Edge>) {
        g.out_edges(v)
    }

    fn from(g: &G, e: G::Edge) -> (v: G::Vert) {
        g.tail(e)
    }

    fn to(g: &G, e: G::Edge) -> (v: G::Vert) {
        g.head(e)
    }
}

/// In-adjacencies: an edge is followed from its head to its tail.
pub struct InAdjacencies;

impl<G: InGraph> Adjacencies<G> for InAdjacencies {
    open spec fn lists(g: &G, v: G::Vert, all: Seq<G::Edge>) -> bool {
        g.lists_in_edges(v, all)
    }

    open spec fn from_spec(g: &G, e: G::Edge) -> G::Vert {
        g.endpoints_spec(e).1
    }

    open spec fn to_spec(g: &G, e: G::Edge) -> G::Vert {
        g.endpoints_spec(e).0
    }

    proof fn lemma_ends_are_verts(g: &G, e: G::Edge) {
        g.lemma_endpoints_are_verts(e);
    }

    fn of(g: &G, v: G::Vert) -> (all: Vec<G::Edge>) {
        g.in_edges(v)
    }

    fn from(g: &G, e: G::Edge) -> (v: G::Vert) {
        g.head(e)
    }

    fn to(g: &G, e: G::Edge) -> (v: G::Vert) {
        g.tail(e)
    }
}

} // verus!
