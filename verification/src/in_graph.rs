//! Graphs that can list the edges that enter a vertex.

use vstd::prelude::*;
use crate::adjacencies::InAdjacencies;
use crate::depth_first::{DepthFirst, DepthFirstEvent, DepthFirstVisited};
use crate::digraph::{Digraph, VertMaps};
use crate::dijkstra::{costs_lengthen, dijkstra, shortest};
use crate::map::MapGet;
use crate::model::index::Index;
use crate::priority::Distance;
use crate::seq_facts::{enumerates, lemma_enumerated_len};

verus! {

/// Represents a directed graph in which the in-adjacencies of vertices can be
/// iterated.
pub trait InGraph: Digraph {
    /// Returns the in-adjacencies of a vertex, that is, the edges with a
    /// given head, each once.
    fn in_edges(&self, v: Self::Vert) -> (all: Vec<Self::Edge>)
        requires
            self.wf(),
            self.vert_set().contains(v),
        ensures
            enumerates(all@, in_edge_set(self, v)),
            self.lists_in_edges(v, all@),
    ;

    /// Whether `all` is a list in which `in_edges` hands out the edges that
    /// enter `v`. A representation that keeps them in an order admits that
    /// order alone.
    spec fn lists_in_edges(&self, v: Self::Vert, all: Seq<Self::Edge>) -> bool;
}

/// The edges of `g` whose head is `v`.
pub open spec fn in_edge_set<G: Digraph + ?Sized>(g: &G, v: G::Vert) -> Set<G::Edge> {
    Set::new(|e: G::Edge| g.edge_set().contains(e) && g.endpoints_spec(e).1 == v)
}

/// Represents a directed graph in which the in-degree of vertices is known.
pub trait ExactInDegreeDigraph: InGraph {
    /// Returns the in-degree of a vertex, that is, the number of
    /// in-adjacencies.
    fn in_degree(&self, v: Self::Vert) -> (n: usize)
        requires
            self.wf(),
            self.vert_set().contains(v),
        ensures
            in_edge_set(self, v).finite(),
            n == in_edge_set(self, v).len(),
    ;
}

impl<G: InGraph> ExactInDegreeDigraph for G {
    fn in_degree(&self, v: Self::Vert) -> (n: usize) {
        let all = self.in_edges(v);
        proof {
            lemma_enumerated_len(all@, in_edge_set(self, v));
        }
        all.len()
    }
}

/// The algorithms that follow the edges of a graph from head to tail.
pub trait InSearch: InGraph + Sized {
    /// Returns an iterator that performs a depth-first traversal.
    fn depth_first_in(&self) -> (search: DepthFirst<'_, Self, InAdjacencies>) where
        Self: VertMaps<DepthFirstVisited>,

        requires
            self.wf(),
        ensures
            search.inv(),
            search.graph_spec() == self,
            search.depth() == 0,
            search.events() == Seq::<DepthFirstEvent<Self>>::empty(),
            enumerates(search.pending(), self.vert_set()),
            self.lists_verts(search.pending()),
            forall|v: Self::Vert| search.mark(v) == DepthFirstVisited::No,
    ;

    /// Returns a map from source vertices to the total cost of the shortest
    /// path to the given target, here called `source`. No cost may make a distance shorter.
    fn dijkstra_to<C, D, M>(&self, costs: &M, source: Self::Vert, zero: D) -> (distances: <Self as VertMaps<
        Option<D>,
    >>::VertMap) where
        Self: VertMaps<Option<D>> + VertMaps<Option<Index>>,
        C: Copy,
        D: Distance<C>,
        M: MapGet<Self::Edge, Value = C>,

        requires
            self.wf(),
            self.vert_set().contains(source),
            self.vert_set().len() <= Index::limit(),
            forall|e: Self::Edge| self.edge_set().contains(e) ==> costs.defined(e),
            costs_lengthen::<Self, C, D, M>(self, costs),
        ensures
            forall|v: Self::Vert| distances.defined(v),
            shortest::<Self, InAdjacencies, C, D, M, <Self as VertMaps<Option<D>>>::VertMap>(
                self,
                costs,
                &distances,
                source,
                zero,
            ),
    ;
}

impl<G: InGraph> InSearch for G {
    fn depth_first_in(&self) -> (search: DepthFirst<'_, Self, InAdjacencies>) where
        Self: VertMaps<DepthFirstVisited>,
     {
        DepthFirst::new(self)
    }

    fn dijkstra_to<C, D, M>(&self, costs: &M, source: Self::Vert, zero: D) -> (distances: <Self as VertMaps<
        Option<D>,
    >>::VertMap) where
        Self: VertMaps<Option<D>> + VertMaps<Option<Index>>,
        C: Copy,
        D: Distance<C>,
        M: MapGet<Self::Edge, Value = C>,
     {
        dijkstra::<Self, InAdjacencies, C, D, M>(self, costs, source, zero)
    }
}

} // verus!
