//! Graphs that can list the edges that leave a vertex.

use vstd::prelude::*;
use crate::adjacencies::OutAdjacencies;
use crate::depth_first::{DepthFirst, DepthFirstEvent, DepthFirstVisited};
use crate::digraph::{Digraph, VertMaps};
use crate::dijkstra::{costs_lengthen, dijkstra, shortest};
use crate::map::MapGet;
use crate::model::index::Index;
use crate::priority::Distance;
use crate::seq_facts::{enumerates, lemma_enumerated_len};

verus! {

/// Represents a directed graph in which the out-adjacencies of vertices can be
/// iterated.
pub trait OutGraph: Digraph {
    /// Returns the out-adjacencies of a vertex, that is, the edges with a
    /// given tail, each once.
    fn out_edges(&self, v: Self::Vert) -> (all: Vec<Self::Edge>)
        requires
            self.wf(),
            self.vert_set().contains(v),
        ensures
            enumerates(all@, out_edge_set(self, v)),
            self.lists_out_edges(v, all@),
    ;

    /// Whether `all` is a list in which `out_edges` hands out the edges that
    /// leave `v`. A representation that keeps them in an order admits that
    /// order alone.
    spec fn lists_out_edges(&self, v: Self::Vert, all: Seq<Self::Edge>) -> bool;
}

/// The edges of `g` whose tail is `v`.
pub open spec fn out_edge_set<G: Digraph + ?Sized>(g: &G, v: G::Vert) -> Set<G::Edge> {
    Set::new(|e: G::Edge| g.edge_set().contains(e) && g.endpoints_spec(e).0 == v)
}

/// Represents a directed graph in which the out-degree of vertices is known.
pub trait ExactOutDegreeDigraph: OutGraph {
    /// Returns the out-degree of a vertex, that is, the number of
    /// out-adjacencies.
    fn out_degree(&self, v: Self::Vert) -> (n: usize)
        requires
            self.wf(),
            self.vert_set().contains(v),
        ensures
            out_edge_set(self, v).finite(),
            n == out_edge_set(self, v).len(),
    ;
}

impl<G: OutGraph> ExactOutDegreeDigraph for G {
    fn out_degree(&self, v: Self::Vert) -> (n: usize) {
        let all = self.out_edges(v);
        proof {
            lemma_enumerated_len(all@, out_edge_set(self, v));
        }
        all.len()
    }
}

/// The algorithms that follow the edges of a graph from tail to head.
pub trait OutSearch: OutGraph + Sized {
    /// Returns an iterator that performs a depth-first traversal.
    fn depth_first_out(&self) -> (search: DepthFirst<'_, Self, OutAdjacencies>) where
        Self: VertMaps<DepthFirstVisited>,

        requires
            self.wf(),
        ensures
            search.inv(),
            search.graph_spec() == self,
            search.depth() == 0,
            search.events() == Seq::<DepthFirstEvent<Self>>::empty(),
            enumerates(search.pending(), self.vert_set()),
            self.lists_verts(search.pending()),
            forall|v: Self::Vert| search.mark(v) == DepthFirstVisited::No,
    ;

    /// Returns a map from target vertices to the total cost of the shortest
    /// path from the given source. No cost may make a distance shorter.
    fn dijkstra<C, D, M>(&self, costs: &M, source: Self::Vert, zero: D) -> (distances: <Self as VertMaps<
        Option<D>,
    >>::VertMap) where
        Self: VertMaps<Option<D>> + VertMaps<Option<Index>>,
        C: Copy,
        D: Distance<C>,
        M: MapGet<Self::Edge, Value = C>,

        requires
            self.wf(),
            self.vert_set().contains(source),
            self.vert_set().len() <= Index::limit(),
            forall|e: Self::Edge| self.edge_set().contains(e) ==> costs.defined(e),
            costs_lengthen::<Self, C, D, M>(self, costs),
        ensures
            forall|v: Self::Vert| distances.defined(v),
            shortest::<Self, OutAdjacencies, C, D, M, <Self as VertMaps<Option<D>>>::VertMap>(
                self,
                costs,
                &distances,
                source,
                zero,
            ),
    ;
}

impl<G: OutGraph> OutSearch for G {
    fn depth_first_out(&self) -> (search: DepthFirst<'_, Self, OutAdjacencies>) where
        Self: VertMaps<DepthFirstVisited>,
     {
        DepthFirst::new(self)
    }

    fn dijkstra<C, D, M>(&self, costs: &M, source: Self::Vert, zero: D) -> (distances: <Self as VertMaps<
        Option<D>,
    >>::VertMap) where
        Self: VertMaps<Option<D>> + VertMaps<Option<Index>>,
        C: Copy,
        D: Distance<C>,
        M: MapGet<Self::Edge, Value = C>,
     {
        dijkstra::<Self, OutAdjacencies, C, D, M>(self, costs, source, zero)
    }
}

} // verus!
