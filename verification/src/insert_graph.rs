//! Graphs that can grow.

use vstd::prelude::*;
use crate::digraph::Digraph;

verus! {

/// Represents a directed graph into which new vertices and edge can be
/// inserted.
pub trait InsertGraph: Digraph + Sized {
    /// The number of vertices that can still be inserted for certain.
    spec fn vert_room(&self) -> nat;

    /// The number of edges that can still be inserted for certain.
    spec fn edge_room(&self) -> nat;

    /// The number of vertices, and of edges, for which an empty graph has
    /// room.
    spec fn capacity() -> nat;

    /// Constructs an empty graph.
    fn new() -> (g: Self)
        ensures
            g.wf(),
            g.vert_set() == Set::<Self::Vert>::empty(),
            g.edge_set() == Set::<Self::Edge>::empty(),
            g.vert_room() == Self::capacity(),
            g.edge_room() == Self::capacity(),
    ;

    /// Inserts a new vertex in the graph. The edges and their endpoints stay
    /// as they are.
    fn insert_vert(&mut self) -> (v: Self::Vert)
        requires
            old(self).wf(),
            old(self).vert_room() > 0,
        ensures
            final(self).wf(),
            !old(self).vert_set().contains(v),
            final(self).vert_set() == old(self).vert_set().insert(v),
            final(self).edge_set() == old(self).edge_set(),
            forall|e: Self::Edge|
                old(self).edge_set().contains(e) ==> final(self).endpoints_spec(e) == old(
                    self,
                ).endpoints_spec(e),
            final(self).vert_room() >= old(self).vert_room() - 1,
            final(self).edge_room() == old(self).edge_room(),
    ;

    /// Inserts a new edge in the graph with a given tail and head. The
    /// vertices, the other edges and their endpoints stay as they are.
    fn insert_edge(&mut self, tail: Self::Vert, head: Self::Vert) -> (e: Self::Edge)
        requires
            old(self).wf(),
            old(self).vert_set().contains(tail),
            old(self).vert_set().contains(head),
            old(self).edge_room() > 0,
        ensures
            final(self).wf(),
            !old(self).edge_set().contains(e),
            final(self).edge_set() == old(self).edge_set().insert(e),
            final(self).vert_set() == old(self).vert_set(),
            final(self).endpoints_spec(e) == (tail, head),
            forall|d: Self::Edge|
                old(self).edge_set().contains(d) ==> final(self).endpoints_spec(d) == old(
                    self,
                ).endpoints_spec(d),
            final(self).vert_room() == old(self).vert_room(),
            final(self).edge_room() >= old(self).edge_room() - 1,
    ;
}

} // verus!
