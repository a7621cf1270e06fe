//! Module implementing a dense out-adjacency list.

use vstd::prelude::*;
use super::dense::{lemma_keys_enumerate, lemma_positions_finite, DenseMap, Domain, Key};
use super::key::{handle_limit, DenseEdge, DenseVert};
use crate::digraph::{Digraph, EdgeMaps, VertMaps};
use crate::map::MapGet;
use crate::insert_graph::InsertGraph;
use crate::out_graph::{out_edge_set, OutGraph};
use crate::seq_facts::copy_of;

verus! {

/// Dense out-adjacency list directed graph representation: each vertex keeps
/// the edges that leave it, in the order of their insertion.
pub struct DenseOutAdjacencyList {
    verts: Domain<DenseVert, Vec<DenseEdge>>,
    edges: Domain<DenseEdge, (DenseVert, DenseVert)>,
}

impl DenseOutAdjacencyList {
    /// The number of vertices.
    pub closed spec fn order_spec(&self) -> nat {
        self.verts@.len()
    }

    /// The number of edges.
    pub closed spec fn size_spec(&self) -> nat {
        self.edges@.len()
    }

    /// The edges that leave `v`, in the order of their insertion.
    pub closed spec fn out_edges_spec(&self, v: DenseVert) -> Seq<DenseEdge> {
        self.verts@[v.index_spec() as int]@
    }
}

impl Digraph for DenseOutAdjacencyList {
    type Vert = DenseVert;

    type Edge = DenseEdge;

    open spec fn lists_verts(&self, all: Seq<DenseVert>) -> bool {
        &&& all.len() == self.order_spec()
        &&& forall|i: int| 0 <= i < all.len() ==> (#[trigger] all[i]).index_spec() == i
    }

    open spec fn lists_edges(&self, all: Seq<DenseEdge>) -> bool {
        &&& all.len() == self.size_spec()
        &&& forall|i: int| 0 <= i < all.len() ==> (#[trigger] all[i]).index_spec() == i
    }

    closed spec fn wf(&self) -> bool {
        &&& self.verts@.len() <= handle_limit()
        &&& self.edges@.len() <= handle_limit()
        &&& forall|i: int|
            0 <= i < self.edges@.len() ==> (#[trigger] self.edges@[i]).0.index_spec()
                < self.verts@.len() && self.edges@[i].1.index_spec() < self.verts@.len()
        &&& forall|i: int|
            0 <= i < self.verts@.len() ==> (#[trigger] self.verts@[i])@.no_duplicates()
        &&& forall|i: int, e: DenseEdge|
            0 <= i < self.verts@.len() ==> ((#[trigger] self.verts@[i])@.contains(e) <==> (
            #[trigger] e.index_spec()) < self.edges@.len() && self.edges@[e.index_spec() as int].0.index_spec()
                == i)
    }

    open spec fn vert_set(&self) -> Set<DenseVert> {
        Set::new(|v: DenseVert| v.index_spec() < self.order_spec())
    }

    open spec fn edge_set(&self) -> Set<DenseEdge> {
        Set::new(|e: DenseEdge| e.index_spec() < self.size_spec())
    }

    closed spec fn endpoints_spec(&self, e: DenseEdge) -> (DenseVert, DenseVert) {
        self.edges@[e.index_spec() as int]
    }

    proof fn lemma_finite(&self) {
        lemma_positions_finite::<DenseVert>(self.verts@.len());
        assert(self.vert_set() =~= Set::new(|k: DenseVert| k.index_spec() < self.verts@.len()));
        lemma_positions_finite::<DenseEdge>(self.edges@.len());
        assert(self.edge_set() =~= Set::new(|k: DenseEdge| k.index_spec() < self.edges@.len()));
    }

    proof fn lemma_endpoints_are_verts(&self, e: DenseEdge) {
    }

    fn same_vert(a: DenseVert, b: DenseVert) -> (same: bool) {
        a == b
    }

    fn same_edge(a: DenseEdge, b: DenseEdge) -> (same: bool) {
        a == b
    }

    fn endpoints(&self, e: DenseEdge) -> (ends: (DenseVert, DenseVert)) {
        *self.edges.index(e)
    }

    fn verts(&self) -> (all: Vec<DenseVert>) {
        let all = self.verts.keys();
        proof {
            lemma_keys_enumerate(all@);
            assert forall|v: DenseVert| all@.contains(v) <==> self.vert_set().contains(v) by {
                if self.vert_set().contains(v) {
                    DenseVert::lemma_index_injective(all@[v.index_spec() as int], v);
                }
            }
        }
        all
    }

    fn edges(&self) -> (all: Vec<DenseEdge>) {
        let all = self.edges.keys();
        proof {
            lemma_keys_enumerate(all@);
            assert forall|e: DenseEdge| all@.contains(e) <==> self.edge_set().contains(e) by {
                if self.edge_set().contains(e) {
                    DenseEdge::lemma_index_injective(all@[e.index_spec() as int], e);
                }
            }
        }
        all
    }
}

impl<T: Copy> VertMaps<T> for DenseOutAdjacencyList {
    type VertMap = DenseMap<DenseVert, T>;

    fn vert_map(&self, default: T) -> (m: Self::VertMap)
        ensures
            m.default_spec() == default,
            forall|v: DenseVert| m.defined(v) && m.at(v) == default,
    {
        DenseMap::with_capacity(default, self.verts.len())
    }

    fn ephemeral_vert_map(&self, default: T) -> (m: Self::VertMap)
        ensures
            m.default_spec() == default,
            forall|v: DenseVert| m.defined(v) && m.at(v) == default,
    {
        DenseMap::with_capacity(default, self.verts.len())
    }
}

impl<T: Copy> EdgeMaps<T> for DenseOutAdjacencyList {
    type EdgeMap = DenseMap<DenseEdge, T>;

    fn edge_map(&self, default: T) -> (m: Self::EdgeMap)
        ensures
            m.default_spec() == default,
            forall|e: DenseEdge| m.defined(e) && m.at(e) == default,
    {
        DenseMap::with_capacity(default, self.edges.len())
    }

    fn ephemeral_edge_map(&self, default: T) -> (m: Self::EdgeMap)
        ensures
            m.default_spec() == default,
            forall|e: DenseEdge| m.defined(e) && m.at(e) == default,
    {
        DenseMap::with_capacity(default, self.edges.len())
    }
}

impl OutGraph for DenseOutAdjacencyList {
    open spec fn lists_out_edges(&self, v: DenseVert, all: Seq<DenseEdge>) -> bool {
        all == self.out_edges_spec(v)
    }

    fn out_edges(&self, v: DenseVert) -> (all: Vec<DenseEdge>)
        ensures
            all@ == self.out_edges_spec(v),
    {
        let all = copy_of(self.verts.index(v));
        proof {
            assert forall|e: DenseEdge| all@.contains(e) <==> out_edge_set(self, v).contains(
                e,
            ) by {
                let i = v.index_spec() as int;
                assert(self.verts@[i]@.contains(e) <==> e.index_spec() < self.edges@.len()
                    && self.edges@[e.index_spec() as int].0.index_spec() == i);
                if e.index_spec() < self.edges@.len() && self.edges@[e.index_spec() as int].0.index_spec()
                    == i {
                    DenseVert::lemma_index_injective(self.edges@[e.index_spec() as int].0, v);
                }
            }
        }
        all
    }
}

impl Default for DenseOutAdjacencyList {
    /// The empty graph.
    fn default() -> (g: Self)
        ensures
            g.wf(),
            g.vert_set() == Set::<DenseVert>::empty(),
            g.edge_set() == Set::<DenseEdge>::empty(),
    {
        Self::new()
    }
}

impl InsertGraph for DenseOutAdjacencyList {
    closed spec fn vert_room(&self) -> nat {
        (handle_limit() - self.verts@.len()) as nat
    }

    closed spec fn edge_room(&self) -> nat {
        (handle_limit() - self.edges@.len()) as nat
    }

    open spec fn capacity() -> nat {
        handle_limit()
    }

    fn new() -> (g: Self)
        ensures
            g.order_spec() == 0,
            g.size_spec() == 0,
    {
        let g = DenseOutAdjacencyList { verts: Domain::default(), edges: Domain::default() };
        assert(g.vert_set() =~= Set::<DenseVert>::empty());
        assert(g.edge_set() =~= Set::<DenseEdge>::empty());
        g
    }

    fn insert_vert(&mut self) -> (v: DenseVert)
        ensures
            v.index_spec() == old(self).order_spec(),
            final(self).order_spec() == old(self).order_spec() + 1,
            final(self).size_spec() == old(self).size_spec(),
            final(self).out_edges_spec(v) == Seq::<DenseEdge>::empty(),
            forall|u: DenseVert|
                old(self).vert_set().contains(u) ==> final(self).out_edges_spec(u) == old(self).out_edges_spec(u),
    {
        let v = self.verts.insert(Vec::new());
        proof {
            assert(self.vert_set() =~= old(self).vert_set().insert(v)) by {
                assert forall|u: DenseVert| self.vert_set().contains(u) implies old(
                    self,
                ).vert_set().insert(v).contains(u) by {
                    if u.index_spec() == v.index_spec() {
                        DenseVert::lemma_index_injective(u, v);
                    }
                }
            }
            assert(self.edge_set() =~= old(self).edge_set());
            assert forall|i: int, e: DenseEdge| 0 <= i < self.verts@.len() implies ((
            #[trigger] self.verts@[i])@.contains(e) <==> (#[trigger] e.index_spec())
                < self.edges@.len() && self.edges@[e.index_spec() as int].0.index_spec() == i) by {
                if i < old(self).verts@.len() {
                    assert(self.verts@[i] == old(self).verts@[i]);
                } else {
                    if e.index_spec() < self.edges@.len() {
                        assert(old(self).edges@[e.index_spec() as int].0.index_spec() < old(
                            self,
                        ).verts@.len());
                    }
                }
            }
        }
        v
    }

    fn insert_edge(&mut self, tail: DenseVert, head: DenseVert) -> (e: DenseEdge)
        ensures
            e.index_spec() == old(self).size_spec(),
            final(self).size_spec() == old(self).size_spec() + 1,
            final(self).order_spec() == old(self).order_spec(),
            final(self).out_edges_spec(tail) == old(self).out_edges_spec(tail).push(e),
            forall|u: DenseVert|
                old(self).vert_set().contains(u) && u != tail ==> final(self).out_edges_spec(u) == old(
                    self,
                ).out_edges_spec(u),
    {
        let e = self.edges.insert((tail, head));
        self.verts.index_mut(tail).push(e);
        proof {
            let t = tail.index_spec() as int;
            assert(self.edge_set() =~= old(self).edge_set().insert(e)) by {
                assert forall|d: DenseEdge| self.edge_set().contains(d) implies old(
                    self,
                ).edge_set().insert(e).contains(d) by {
                    if d.index_spec() == e.index_spec() {
                        DenseEdge::lemma_index_injective(d, e);
                    }
                }
            }
            assert(self.vert_set() =~= old(self).vert_set());
            assert(self.verts@[t]@ == old(self).verts@[t]@.push(e));
            assert forall|i: int| 0 <= i < self.verts@.len() implies (
            #[trigger] self.verts@[i])@.no_duplicates() by {
                if i == t {
                    assert(!old(self).verts@[t]@.contains(e));
                    assert forall|a: int, b: int|
                        0 <= a < self.verts@[t]@.len() && 0 <= b < self.verts@[t]@.len() && a
                            != b implies self.verts@[t]@[a] != self.verts@[t]@[b] by {
                        if a < old(self).verts@[t]@.len() {
                            assert(old(self).verts@[t]@.contains(old(self).verts@[t]@[a]));
                        }
                        if b < old(self).verts@[t]@.len() {
                            assert(old(self).verts@[t]@.contains(old(self).verts@[t]@[b]));
                        }
                    }
                } else {
                    assert(self.verts@[i] == old(self).verts@[i]);
                }
            }
            assert forall|i: int, d: DenseEdge| 0 <= i < self.verts@.len() implies ((
            #[trigger] self.verts@[i])@.contains(d) <==> (#[trigger] d.index_spec())
                < self.edges@.len() && self.edges@[d.index_spec() as int].0.index_spec() == i) by {
                if d.index_spec() == e.index_spec() {
                    DenseEdge::lemma_index_injective(d, e);
                }
                if i == t {
                    if old(self).verts@[t]@.contains(d) {
                        let a = choose|a: int|
                            0 <= a < old(self).verts@[t]@.len() && old(self).verts@[t]@[a] == d;
                        assert(self.verts@[t]@[a] == d);
                    }
                    if self.verts@[t]@.contains(d) {
                        let a = choose|a: int|
                            0 <= a < self.verts@[t]@.len() && self.verts@[t]@[a] == d;
                        if a < old(self).verts@[t]@.len() {
                            assert(old(self).verts@[t]@[a] == d);
                        }
                    }
                    if d == e {
                        assert(self.verts@[t]@[old(self).verts@[t]@.len() as int] == e);
                    }
                } else {
                    assert(self.verts@[i] == old(self).verts@[i]);
                }
            }
            assert forall|u: DenseVert| u != tail implies u.index_spec() != tail.index_spec() by {
                if u.index_spec() == tail.index_spec() {
                    DenseVert::lemma_index_injective(u, tail);
                }
            }
        }
        e
    }
}

} // verus!
