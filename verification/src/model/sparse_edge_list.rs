//! Module implementing a sparse edge list.

use vstd::prelude::*;
use super::dense;
use super::dense::Key as DenseKey;
use super::dense::{lemma_keys_enumerate, lemma_positions_finite, DenseMap};
use super::key::{handle_limit, DenseVert, SparseEdge};
use super::sparse;
use super::sparse::Key as SparseKey;
use super::sparse::SparseMap;
use crate::digraph::{Digraph, EdgeMaps, VertMaps};
use crate::map::MapGet;
use crate::insert_graph::InsertGraph;

verus! {

/// Sparse edge list directed graph representation: the edges can be removed,
/// and nothing is kept per vertex.
pub struct SparseEdgeList {
    verts: dense::Domain<DenseVert, ()>,
    edges: sparse::Domain<SparseEdge, (DenseVert, DenseVert)>,
}

impl SparseEdgeList {
    /// The number of vertices.
    pub closed spec fn order_spec(&self) -> nat {
        self.verts@.len()
    }

    /// The numbers of the removed edges that wait to be handed out again, the
    /// most recently removed last.
    pub closed spec fn free_edges(&self) -> Seq<usize> {
        self.edges.free()
    }

    /// The number that a new edge gets when no removed one waits.
    pub closed spec fn next_edge(&self) -> usize {
        self.edges.next_index()
    }

    /// Whether `e` is an edge of the graph.
    pub closed spec fn has_edge(&self, e: SparseEdge) -> bool {
        self.edges.contains_key(e)
    }

    /// Removes an edge. The vertices, the other edges and their endpoints
    /// stay as they are.
    pub fn remove_edge(&mut self, e: SparseEdge)
        requires
            old(self).wf(),
            old(self).edge_set().contains(e),
        ensures
            final(self).wf(),
            final(self).edge_set() == old(self).edge_set().remove(e),
            final(self).vert_set() == old(self).vert_set(),
            forall|d: SparseEdge|
                final(self).edge_set().contains(d) ==> final(self).endpoints_spec(d) == old(
                    self,
                ).endpoints_spec(d),
            final(self).vert_room() == old(self).vert_room(),
            final(self).edge_room() == old(self).edge_room() + 1,
            final(self).free_edges() == old(self).free_edges().push(e.index_spec()),
            final(self).next_edge() == old(self).next_edge(),
            final(self).order_spec() == old(self).order_spec(),
    {
        self.edges.remove(e);
        proof {
            assert(self.edge_set() =~= old(self).edge_set().remove(e)) by {
                assert forall|d: SparseEdge| self.edge_set().contains(d) <==> old(
                    self,
                ).edge_set().remove(e).contains(d) by {
                    if d.index_spec() == e.index_spec() {
                        <SparseEdge as SparseKey>::lemma_index_injective(d, e);
                    }
                }
            }
            assert(self.vert_set() =~= old(self).vert_set());
        }
    }
}

impl Digraph for SparseEdgeList {
    type Vert = DenseVert;

    type Edge = SparseEdge;

    open spec fn lists_verts(&self, all: Seq<DenseVert>) -> bool {
        &&& all.len() == self.order_spec()
        &&& forall|i: int| 0 <= i < all.len() ==> (#[trigger] all[i]).index_spec() == i
    }

    open spec fn lists_edges(&self, all: Seq<SparseEdge>) -> bool {
        true
    }

    closed spec fn wf(&self) -> bool {
        &&& self.verts@.len() <= handle_limit()
        &&& self.edges.wf()
        &&& forall|n: usize|
            self.edges@.contains_key(n) ==> (#[trigger] self.edges@[n]).0.index_spec()
                < self.verts@.len() && self.edges@[n].1.index_spec() < self.verts@.len()
    }

    open spec fn vert_set(&self) -> Set<DenseVert> {
        Set::new(|v: DenseVert| v.index_spec() < self.order_spec())
    }

    open spec fn edge_set(&self) -> Set<SparseEdge> {
        Set::new(|e: SparseEdge| self.has_edge(e))
    }

    closed spec fn endpoints_spec(&self, e: SparseEdge) -> (DenseVert, DenseVert) {
        self.edges.value(e)
    }

    proof fn lemma_finite(&self) {
        lemma_positions_finite::<DenseVert>(self.verts@.len());
        assert(self.vert_set() =~= Set::new(|k: DenseVert| k.index_spec() < self.verts@.len()));
        self.edges.lemma_finite();
        assert(self.edge_set() =~= Set::new(|k: SparseEdge| self.edges.contains_key(k)));
    }

    proof fn lemma_endpoints_are_verts(&self, e: SparseEdge) {
    }

    fn same_vert(a: DenseVert, b: DenseVert) -> (same: bool) {
        a == b
    }

    fn same_edge(a: SparseEdge, b: SparseEdge) -> (same: bool) {
        a == b
    }

    fn endpoints(&self, e: SparseEdge) -> (ends: (DenseVert, DenseVert)) {
        *self.edges.index(e)
    }

    fn verts(&self) -> (all: Vec<DenseVert>) {
        let all = self.verts.keys();
        proof {
            lemma_keys_enumerate(all@);
            assert forall|v: DenseVert| all@.contains(v) <==> self.vert_set().contains(v) by {
                if self.vert_set().contains(v) {
                    <DenseVert as DenseKey>::lemma_index_injective(
                        all@[v.index_spec() as int],
                        v,
                    );
                }
            }
        }
        all
    }

    fn edges(&self) -> (all: Vec<SparseEdge>) {
        self.edges.keys()
    }
}

impl<T: Copy> VertMaps<T> for SparseEdgeList {
    type VertMap = DenseMap<DenseVert, T>;

    fn vert_map(&self, default: T) -> (m: Self::VertMap)
        ensures
            m.default_spec() == default,
            forall|v: DenseVert| m.defined(v) && m.at(v) == default,
    {
        DenseMap::with_capacity(default, self.verts.len())
    }

    fn ephemeral_vert_map(&self, default: T) -> (m: Self::VertMap)
        ensures
            m.default_spec() == default,
            forall|v: DenseVert| m.defined(v) && m.at(v) == default,
    {
        DenseMap::with_capacity(default, self.verts.len())
    }
}

impl<T: Copy> EdgeMaps<T> for SparseEdgeList {
    type EdgeMap = SparseMap<SparseEdge, T>;

    fn edge_map(&self, default: T) -> (m: Self::EdgeMap)
        ensures
            m.default_spec() == default,
            forall|e: SparseEdge| m.defined(e) && m.at(e) == default,
    {
        SparseMap::with_capacity(default, self.edges.len())
    }

    fn ephemeral_edge_map(&self, default: T) -> (m: Self::EdgeMap)
        ensures
            m.default_spec() == default,
            forall|e: SparseEdge| m.defined(e) && m.at(e) == default,
    {
        SparseMap::with_capacity(default, self.edges.len())
    }
}

impl Default for SparseEdgeList {
    /// The empty graph.
    fn default() -> (g: Self)
        ensures
            g.wf(),
            g.vert_set() == Set::<DenseVert>::empty(),
            g.edge_set() == Set::<SparseEdge>::empty(),
    {
        Self::new()
    }
}

impl InsertGraph for SparseEdgeList {
    closed spec fn vert_room(&self) -> nat {
        (handle_limit() - self.verts@.len()) as nat
    }

    closed spec fn edge_room(&self) -> nat {
        self.edges.room()
    }

    open spec fn capacity() -> nat {
        handle_limit()
    }

    fn new() -> (g: Self)
        ensures
            g.order_spec() == 0,
            g.free_edges() == Seq::<usize>::empty(),
            g.next_edge() == 0,
    {
        let g = SparseEdgeList { verts: dense::Domain::default(), edges: sparse::Domain::default() };
        assert(g.vert_set() =~= Set::<DenseVert>::empty());
        assert(g.edge_set() =~= Set::<SparseEdge>::empty());
        g
    }

    fn insert_vert(&mut self) -> (v: DenseVert)
        ensures
            v.index_spec() == old(self).order_spec(),
            final(self).order_spec() == old(self).order_spec() + 1,
            final(self).free_edges() == old(self).free_edges(),
            final(self).next_edge() == old(self).next_edge(),
    {
        let v = self.verts.insert(());
        proof {
            assert(self.vert_set() =~= old(self).vert_set().insert(v)) by {
                assert forall|u: DenseVert| self.vert_set().contains(u) implies old(
                    self,
                ).vert_set().insert(v).contains(u) by {
                    if u.index_spec() == v.index_spec() {
                        <DenseVert as DenseKey>::lemma_index_injective(u, v);
                    }
                }
            }
            assert(self.edge_set() =~= old(self).edge_set());
        }
        v
    }

    fn insert_edge(&mut self, tail: DenseVert, head: DenseVert) -> (e: SparseEdge)
        ensures
            final(self).order_spec() == old(self).order_spec(),
            e.index_spec() == (if old(self).free_edges().len() > 0 {
                old(self).free_edges().last()
            } else {
                old(self).next_edge()
            }),
            final(self).free_edges() == (if old(self).free_edges().len() > 0 {
                old(self).free_edges().drop_last()
            } else {
                old(self).free_edges()
            }),
            final(self).next_edge() == (if old(self).free_edges().len() > 0 {
                old(self).next_edge() as int
            } else {
                old(self).next_edge() + 1
            }),
    {
        let e = self.edges.insert((tail, head));
        proof {
            assert(self.edge_set() =~= old(self).edge_set().insert(e)) by {
                assert forall|d: SparseEdge| self.edge_set().contains(d) <==> old(
                    self,
                ).edge_set().insert(e).contains(d) by {
                    if d.index_spec() == e.index_spec() {
                        <SparseEdge as SparseKey>::lemma_index_injective(d, e);
                    }
                }
            }
            assert(self.vert_set() =~= old(self).vert_set());
            assert forall|d: SparseEdge| old(self).edge_set().contains(d) implies self.endpoints_spec(
                d,
            ) == old(self).endpoints_spec(d) by {
                assert(d.index_spec() != e.index_spec());
            }
        }
        e
    }
}

} // verus!
