//! Module implementing a sparse bi-adjacency list.

use vstd::prelude::*;
use super::key::{handle_limit, SparseEdge, SparseVert};
use super::sparse::{keys_of, Domain, Key, SparseMap};
use crate::digraph::{Digraph, EdgeMaps, VertMaps};
use crate::map::MapGet;
use crate::in_graph::{in_edge_set, InGraph};
use crate::insert_graph::InsertGraph;
use crate::out_graph::{out_edge_set, OutGraph};
use std::collections::HashSet;

verus! {

broadcast use vstd::std_specs::hash::group_hash_axioms;

/// Sparse bi-adjacency list directed graph representation: vertices and
/// edges can be removed, and each vertex keeps the set of the edges that
/// leave it and the set of the edges that enter it.
pub struct SparseBiAdjacencyList {
    verts: Domain<SparseVert, (HashSet<usize>, HashSet<usize>)>,
    edges: Domain<SparseEdge, (SparseVert, SparseVert)>,
}

impl SparseBiAdjacencyList {
    /// The numbers of the removed vertices that wait to be handed out again,
    /// the most recently removed last.
    pub closed spec fn free_verts(&self) -> Seq<usize> {
        self.verts.free()
    }

    /// The number that a new vertex gets when no removed one waits.
    pub closed spec fn next_vert(&self) -> usize {
        self.verts.next_index()
    }

    /// The numbers of the removed edges that wait to be handed out again, the
    /// most recently removed last.
    pub closed spec fn free_edges(&self) -> Seq<usize> {
        self.edges.free()
    }

    /// The number that a new edge gets when no removed one waits.
    pub closed spec fn next_edge(&self) -> usize {
        self.edges.next_index()
    }

    /// Whether `v` is a vertex of the graph.
    pub closed spec fn has_vert(&self, v: SparseVert) -> bool {
        self.verts.contains_key(v)
    }

    /// Whether `e` is an edge of the graph.
    pub closed spec fn has_edge(&self, e: SparseEdge) -> bool {
        self.edges.contains_key(e)
    }

    /// Each vertex keeps exactly the edges that leave it.
    spec fn outs_match(&self) -> bool {
        forall|i: usize, n: usize|
            self.verts@.contains_key(i) ==> ((#[trigger] self.verts@[i]).0@.contains(n)
                <==> #[trigger] self.edges@.contains_key(n) && self.edges@[n].0.index_spec() == i)
    }

    /// Each vertex keeps exactly the edges that enter it.
    spec fn ins_match(&self) -> bool {
        forall|i: usize, n: usize|
            self.verts@.contains_key(i) ==> ((#[trigger] self.verts@[i]).1@.contains(n)
                <==> #[trigger] self.edges@.contains_key(n) && self.edges@[n].1.index_spec() == i)
    }

    /// What holds while the vertex with the number `gone` is being removed:
    /// it is no vertex any more, the edges that are left are edges of
    /// `before` with their endpoints, and apart from `gone` every endpoint
    /// is a vertex that keeps exactly its edges.
    spec fn removing(&self, before: &Self, gone: usize) -> bool {
        &&& self.verts.wf()
        &&& self.edges.wf()
        &&& self.verts@.dom() == before.verts@.dom().remove(gone)
        &&& self.verts.free() == before.verts.free().push(gone)
        &&& self.verts.next_index() == before.verts.next_index()
        &&& self.edges.room() >= before.edges.room()
        &&& self.edges.next_index() == before.edges.next_index()
        &&& forall|n: usize|
            #[trigger] self.edges@.contains_key(n) ==> before.edges@.contains_key(n)
                && self.edges@[n] == before.edges@[n]
        &&& self.outs_match()
        &&& self.ins_match()
    }

    /// Removes a vertex and all adjacent edges. The other vertices, the
    /// other edges and their endpoints stay as they are.
    pub fn remove_vert(&mut self, v: SparseVert)
        requires
            old(self).wf(),
            old(self).vert_set().contains(v),
        ensures
            final(self).wf(),
            final(self).vert_set() == old(self).vert_set().remove(v),
            forall|e: SparseEdge|
                final(self).edge_set().contains(e) <==> old(self).edge_set().contains(e) && old(
                    self,
                ).endpoints_spec(e).0 != v && old(self).endpoints_spec(e).1 != v,
            forall|e: SparseEdge|
                final(self).edge_set().contains(e) ==> final(self).endpoints_spec(e) == old(
                    self,
                ).endpoints_spec(e),
            final(self).vert_room() == old(self).vert_room() + 1,
            final(self).edge_room() >= old(self).edge_room(),
            final(self).free_verts() == old(self).free_verts().push(v.index_spec()),
            final(self).next_vert() == old(self).next_vert(),
            final(self).next_edge() == old(self).next_edge(),
    {
        let ghost before = *self;
        let ghost gone = v.index_spec();
        let (out_edges, in_edges) = self.verts.remove(v);
        proof {
            assert forall|n: usize| out_edges@.contains(n) implies n < handle_limit() by {
                assert(before.verts@[gone].0@.contains(n));
                assert(before.edges@.contains_key(n));
            }
            assert forall|n: usize| in_edges@.contains(n) implies n < handle_limit() by {
                assert(before.verts@[gone].1@.contains(n));
                assert(before.edges@.contains_key(n));
            }
            assert forall|i: usize, n: usize| self.verts@.contains_key(i) implies ((
            #[trigger] self.verts@[i]).0@.contains(n) <==> #[trigger] self.edges@.contains_key(n)
                && self.edges@[n].0.index_spec() == i) by {
                assert(before.verts@[i].0@.contains(n) <==> before.edges@.contains_key(n)
                    && before.edges@[n].0.index_spec() == i);
            }
            assert forall|i: usize, n: usize| self.verts@.contains_key(i) implies ((
            #[trigger] self.verts@[i]).1@.contains(n) <==> #[trigger] self.edges@.contains_key(n)
                && self.edges@[n].1.index_spec() == i) by {
                assert(before.verts@[i].1@.contains(n) <==> before.edges@.contains_key(n)
                    && before.edges@[n].1.index_spec() == i);
            }
        }
        let outs = keys_of::<SparseEdge>(&out_edges);
        let ins = keys_of::<SparseEdge>(&in_edges);
        proof {
            assert forall|k: int| 0 <= k < outs@.len() implies before.edges@.contains_key(
                (#[trigger] outs@[k]).index_spec(),
            ) && before.edges@[outs@[k].index_spec()].0.index_spec() == gone by {
                assert(outs@.contains(outs@[k]));
                assert(before.verts@[gone].0@.contains(outs@[k].index_spec()));
            }
            assert forall|k: int| 0 <= k < ins@.len() implies before.edges@.contains_key(
                (#[trigger] ins@[k]).index_spec(),
            ) && before.edges@[ins@[k].index_spec()].1.index_spec() == gone by {
                assert(ins@.contains(ins@[k]));
                assert(before.verts@[gone].1@.contains(ins@[k].index_spec()));
            }
            assert forall|n: usize|
                before.edges@.contains_key(n) && before.edges@[n].0.index_spec()
                    == gone implies exists|k: int|
                0 <= k < outs@.len() && (#[trigger] outs@[k]).index_spec() == n by {
                assert(before.verts@[gone].0@.contains(n));
            }
            assert forall|n: usize|
                before.edges@.contains_key(n) && before.edges@[n].1.index_spec()
                    == gone implies exists|k: int|
                0 <= k < ins@.len() && (#[trigger] ins@[k]).index_spec() == n by {
                assert(before.verts@[gone].1@.contains(n));
            }
        }
        let mut i: usize = 0;
        while i < outs.len()
            invariant
                i <= outs@.len(),
                before.wf(),
                before.verts@.contains_key(gone),
                gone == v.index_spec(),
                self.removing(&before, gone),
                outs@.no_duplicates(),
                forall|k: int|
                    0 <= k < outs@.len() ==> before.edges@.contains_key(
                        (#[trigger] outs@[k]).index_spec(),
                    ) && before.edges@[outs@[k].index_spec()].0.index_spec() == gone,
                forall|n: usize|
                    before.edges@.contains_key(n) && before.edges@[n].0.index_spec() == gone
                        ==> exists|k: int|
                        0 <= k < outs@.len() && (#[trigger] outs@[k]).index_spec() == n,
                forall|n: usize|
                    #[trigger] self.edges@.contains_key(n) <==> before.edges@.contains_key(n) && (
                    before.edges@[n].0.index_spec() != gone || before.edges@[n].1.index_spec()
                        == gone || exists|j: int|
                        i <= j < outs@.len() && (#[trigger] outs@[j]).index_spec() == n),
            decreases outs@.len() - i,
        {
            let e = outs[i];
            let number: usize = e.index();
            proof {
                assert(self.edges@.contains_key(number)) by {
                    assert(outs@[i as int].index_spec() == number);
                }
            }
            let head = self.edges.index(e).1;
            if !(head == v) {
                let ghost earlier = *self;
                proof {
                    if head.index_spec() == gone {
                        SparseVert::lemma_index_injective(head, v);
                    }
                    assert(before.edges@.contains_key(number));
                    assert(before.verts@.contains_key(before.edges@[number].1.index_spec()));
                }
                self.edges.remove(e);
                self.verts.index_mut(head).1.remove(&number);
                proof {
                    let h = head.index_spec();
                    assert forall|a: usize, n: usize| self.verts@.contains_key(a) implies ((
                    #[trigger] self.verts@[a]).0@.contains(n)
                        <==> #[trigger] self.edges@.contains_key(n) && self.edges@[n].0.index_spec()
                        == a) by {
                        assert(earlier.verts@[a].0@.contains(n) <==> earlier.edges@.contains_key(n)
                            && earlier.edges@[n].0.index_spec() == a);
                    }
                    assert forall|a: usize, n: usize| self.verts@.contains_key(a) implies ((
                    #[trigger] self.verts@[a]).1@.contains(n)
                        <==> #[trigger] self.edges@.contains_key(n) && self.edges@[n].1.index_spec()
                        == a) by {
                        assert(earlier.verts@[a].1@.contains(n) <==> earlier.edges@.contains_key(n)
                            && earlier.edges@[n].1.index_spec() == a);
                    }
                    assert(self.verts@.dom() =~= before.verts@.dom().remove(gone));
                }
            } else {
                proof {
                    SparseVert::lemma_index_injective(head, v);
                }
            }
            proof {
                assert forall|n: usize|
                    #[trigger] self.edges@.contains_key(n) <==> before.edges@.contains_key(n) && (
                    before.edges@[n].0.index_spec() != gone || before.edges@[n].1.index_spec()
                        == gone || exists|j: int|
                        i + 1 <= j < outs@.len() && (#[trigger] outs@[j]).index_spec() == n) by {
                    if before.edges@.contains_key(n) && before.edges@[n].0.index_spec() == gone
                        && before.edges@[n].1.index_spec() != gone {
                        if n == number {
                            if exists|j: int|
                                i + 1 <= j < outs@.len() && (#[trigger] outs@[j]).index_spec()
                                    == n {
                                let j = choose|j: int|
                                    i + 1 <= j < outs@.len() && (#[trigger] outs@[j]).index_spec()
                                        == n;
                                SparseEdge::lemma_index_injective(outs@[j], outs@[i as int]);
                            }
                        } else {
                            if exists|j: int|
                                i <= j < outs@.len() && (#[trigger] outs@[j]).index_spec() == n {
                                let j = choose|j: int|
                                    i <= j < outs@.len() && (#[trigger] outs@[j]).index_spec()
                                        == n;
                                assert(j != i);
                                assert(i + 1 <= j < outs@.len() && outs@[j].index_spec() == n);
                            }
                        }
                    }
                }
            }
            i += 1;
        }
        let mut j: usize = 0;
        while j < ins.len()
            invariant
                j <= ins@.len(),
                before.wf(),
                before.verts@.contains_key(gone),
                gone == v.index_spec(),
                self.removing(&before, gone),
                ins@.no_duplicates(),
                forall|k: int|
                    0 <= k < ins@.len() ==> before.edges@.contains_key(
                        (#[trigger] ins@[k]).index_spec(),
                    ) && before.edges@[ins@[k].index_spec()].1.index_spec() == gone,
                forall|n: usize|
                    before.edges@.contains_key(n) && before.edges@[n].1.index_spec() == gone
                        ==> exists|k: int|
                        0 <= k < ins@.len() && (#[trigger] ins@[k]).index_spec() == n,
                forall|n: usize|
                    #[trigger] self.edges@.contains_key(n) <==> before.edges@.contains_key(n) && (
                    before.edges@[n].0.index_spec() != gone || before.edges@[n].1.index_spec()
                        == gone) && (before.edges@[n].1.index_spec() != gone || exists|k: int|
                        j <= k < ins@.len() && (#[trigger] ins@[k]).index_spec() == n),
            decreases ins@.len() - j,
        {
            let e = ins[j];
            let number: usize = e.index();
            proof {
                assert(self.edges@.contains_key(number)) by {
                    assert(ins@[j as int].index_spec() == number);
                }
            }
            let tail = self.edges.index(e).0;
            let ghost earlier = *self;
            self.edges.remove(e);
            if !(tail == v) {
                proof {
                    if tail.index_spec() == gone {
                        SparseVert::lemma_index_injective(tail, v);
                    }
                    assert(before.edges@.contains_key(number));
                    assert(before.verts@.contains_key(before.edges@[number].0.index_spec()));
                }
                self.verts.index_mut(tail).0.remove(&number);
                proof {
                    assert(self.verts@.dom() =~= before.verts@.dom().remove(gone));
                }
            } else {
                proof {
                    SparseVert::lemma_index_injective(tail, v);
                }
            }
            proof {
                assert forall|a: usize, n: usize| self.verts@.contains_key(a) implies ((
                #[trigger] self.verts@[a]).0@.contains(n) <==> #[trigger] self.edges@.contains_key(
                    n,
                ) && self.edges@[n].0.index_spec() == a) by {
                    assert(earlier.verts@[a].0@.contains(n) <==> earlier.edges@.contains_key(n)
                        && earlier.edges@[n].0.index_spec() == a);
                }
                assert forall|a: usize, n: usize| self.verts@.contains_key(a) implies ((
                #[trigger] self.verts@[a]).1@.contains(n) <==> #[trigger] self.edges@.contains_key(
                    n,
                ) && self.edges@[n].1.index_spec() == a) by {
                    assert(earlier.verts@[a].1@.contains(n) <==> earlier.edges@.contains_key(n)
                        && earlier.edges@[n].1.index_spec() == a);
                }
                assert forall|n: usize|
                    #[trigger] self.edges@.contains_key(n) <==> before.edges@.contains_key(n) && (
                    before.edges@[n].0.index_spec() != gone || before.edges@[n].1.index_spec()
                        == gone) && (before.edges@[n].1.index_spec() != gone || exists|k: int|
                        j + 1 <= k < ins@.len() && (#[trigger] ins@[k]).index_spec() == n) by {
                    if before.edges@.contains_key(n) && before.edges@[n].1.index_spec() == gone {
                        if n == number {
                            if exists|k: int|
                                j + 1 <= k < ins@.len() && (#[trigger] ins@[k]).index_spec() == n {
                                let k = choose|k: int|
                                    j + 1 <= k < ins@.len() && (#[trigger] ins@[k]).index_spec()
                                        == n;
                                SparseEdge::lemma_index_injective(ins@[k], ins@[j as int]);
                            }
                        } else {
                            if exists|k: int|
                                j <= k < ins@.len() && (#[trigger] ins@[k]).index_spec() == n {
                                let k = choose|k: int|
                                    j <= k < ins@.len() && (#[trigger] ins@[k]).index_spec() == n;
                                assert(k != j);
                                assert(j + 1 <= k < ins@.len() && ins@[k].index_spec() == n);
                            }
                        }
                    }
                }
            }
            j += 1;
        }
        proof {
            assert(self.vert_set() =~= old(self).vert_set().remove(v)) by {
                assert forall|u: SparseVert| self.vert_set().contains(u) <==> old(
                    self,
                ).vert_set().remove(v).contains(u) by {
                    if u.index_spec() == v.index_spec() {
                        SparseVert::lemma_index_injective(u, v);
                    }
                }
            }
            assert forall|e: SparseEdge|
                self.edge_set().contains(e) <==> old(self).edge_set().contains(e) && old(
                    self,
                ).endpoints_spec(e).0 != v && old(self).endpoints_spec(e).1 != v by {
                let n = e.index_spec();
                if before.edges@.contains_key(n) {
                    if before.edges@[n].0.index_spec() == gone {
                        SparseVert::lemma_index_injective(before.edges@[n].0, v);
                    }
                    if before.edges@[n].1.index_spec() == gone {
                        SparseVert::lemma_index_injective(before.edges@[n].1, v);
                    }
                }
            }
            assert forall|n: usize| self.edges@.contains_key(n) implies self.verts@.contains_key(
                (#[trigger] self.edges@[n]).0.index_spec(),
            ) && self.verts@.contains_key(self.edges@[n].1.index_spec()) by {
                assert(before.edges@.contains_key(n));
            }
        }
    }

    /// Removes an edge. The vertices, the other edges and their endpoints
    /// stay as they are.
    pub fn remove_edge(&mut self, e: SparseEdge)
        requires
            old(self).wf(),
            old(self).edge_set().contains(e),
        ensures
            final(self).wf(),
            final(self).edge_set() == old(self).edge_set().remove(e),
            final(self).vert_set() == old(self).vert_set(),
            forall|d: SparseEdge|
                final(self).edge_set().contains(d) ==> final(self).endpoints_spec(d) == old(
                    self,
                ).endpoints_spec(d),
            final(self).vert_room() == old(self).vert_room(),
            final(self).edge_room() == old(self).edge_room() + 1,
            final(self).free_edges() == old(self).free_edges().push(e.index_spec()),
            final(self).next_edge() == old(self).next_edge(),
            final(self).free_verts() == old(self).free_verts(),
            final(self).next_vert() == old(self).next_vert(),
    {
        let (tail, head) = self.edges.remove(e);
        let number: usize = e.index();
        self.verts.index_mut(tail).0.remove(&number);
        let ghost mid = *self;
        self.verts.index_mut(head).1.remove(&number);
        proof {
            let t = tail.index_spec();
            let h = head.index_spec();
            assert(self.edge_set() =~= old(self).edge_set().remove(e)) by {
                assert forall|d: SparseEdge| self.edge_set().contains(d) <==> old(
                    self,
                ).edge_set().remove(e).contains(d) by {
                    if d.index_spec() == e.index_spec() {
                        SparseEdge::lemma_index_injective(d, e);
                    }
                }
            }
            assert(self.verts@.dom() =~= old(self).verts@.dom());
            assert(self.vert_set() =~= old(self).vert_set());
            assert forall|i: usize, n: usize| self.verts@.contains_key(i) implies ((
            #[trigger] self.verts@[i]).0@.contains(n) <==> #[trigger] self.edges@.contains_key(n)
                && self.edges@[n].0.index_spec() == i) by {
                assert(old(self).verts@[i].0@.contains(n) <==> old(self).edges@.contains_key(n)
                    && old(self).edges@[n].0.index_spec() == i);
                if i != t {
                    assert(mid.verts@[i] == old(self).verts@[i]);
                }
                if i != h {
                    assert(self.verts@[i] == mid.verts@[i]);
                }
            }
            assert forall|i: usize, n: usize| self.verts@.contains_key(i) implies ((
            #[trigger] self.verts@[i]).1@.contains(n) <==> #[trigger] self.edges@.contains_key(n)
                && self.edges@[n].1.index_spec() == i) by {
                assert(old(self).verts@[i].1@.contains(n) <==> old(self).edges@.contains_key(n)
                    && old(self).edges@[n].1.index_spec() == i);
                if i != t {
                    assert(mid.verts@[i] == old(self).verts@[i]);
                }
                if i != h {
                    assert(self.verts@[i] == mid.verts@[i]);
                }
            }
        }
    }
}

impl Digraph for SparseBiAdjacencyList {
    type Vert = SparseVert;

    type Edge = SparseEdge;

    open spec fn lists_verts(&self, all: Seq<SparseVert>) -> bool {
        true
    }

    open spec fn lists_edges(&self, all: Seq<SparseEdge>) -> bool {
        true
    }

    closed spec fn wf(&self) -> bool {
        &&& self.verts.wf()
        &&& self.edges.wf()
        &&& forall|n: usize|
            self.edges@.contains_key(n) ==> self.verts@.contains_key(
                (#[trigger] self.edges@[n]).0.index_spec(),
            ) && self.verts@.contains_key(self.edges@[n].1.index_spec())
        &&& self.outs_match()
        &&& self.ins_match()
    }

    open spec fn vert_set(&self) -> Set<SparseVert> {
        Set::new(|v: SparseVert| self.has_vert(v))
    }

    open spec fn edge_set(&self) -> Set<SparseEdge> {
        Set::new(|e: SparseEdge| self.has_edge(e))
    }

    closed spec fn endpoints_spec(&self, e: SparseEdge) -> (SparseVert, SparseVert) {
        self.edges.value(e)
    }

    proof fn lemma_finite(&self) {
        self.verts.lemma_finite();
        assert(self.vert_set() =~= Set::new(|k: SparseVert| self.verts.contains_key(k)));
        self.edges.lemma_finite();
        assert(self.edge_set() =~= Set::new(|k: SparseEdge| self.edges.contains_key(k)));
    }

    proof fn lemma_endpoints_are_verts(&self, e: SparseEdge) {
    }

    fn same_vert(a: SparseVert, b: SparseVert) -> (same: bool) {
        a == b
    }

    fn same_edge(a: SparseEdge, b: SparseEdge) -> (same: bool) {
        a == b
    }

    fn endpoints(&self, e: SparseEdge) -> (ends: (SparseVert, SparseVert)) {
        *self.edges.index(e)
    }

    fn verts(&self) -> (all: Vec<SparseVert>) {
        self.verts.keys()
    }

    fn edges(&self) -> (all: Vec<SparseEdge>) {
        self.edges.keys()
    }
}

impl<T: Copy> VertMaps<T> for SparseBiAdjacencyList {
    type VertMap = SparseMap<SparseVert, T>;

    fn vert_map(&self, default: T) -> (m: Self::VertMap)
        ensures
            m.default_spec() == default,
            forall|v: SparseVert| m.defined(v) && m.at(v) == default,
    {
        SparseMap::with_capacity(default, self.verts.len())
    }

    fn ephemeral_vert_map(&self, default: T) -> (m: Self::VertMap)
        ensures
            m.default_spec() == default,
            forall|v: SparseVert| m.defined(v) && m.at(v) == default,
    {
        SparseMap::with_capacity(default, self.verts.len())
    }
}

impl<T: Copy> EdgeMaps<T> for SparseBiAdjacencyList {
    type EdgeMap = SparseMap<SparseEdge, T>;

    fn edge_map(&self, default: T) -> (m: Self::EdgeMap)
        ensures
            m.default_spec() == default,
            forall|e: SparseEdge| m.defined(e) && m.at(e) == default,
    {
        SparseMap::with_capacity(default, self.edges.len())
    }

    fn ephemeral_edge_map(&self, default: T) -> (m: Self::EdgeMap)
        ensures
            m.default_spec() == default,
            forall|e: SparseEdge| m.defined(e) && m.at(e) == default,
    {
        SparseMap::with_capacity(default, self.edges.len())
    }
}

impl OutGraph for SparseBiAdjacencyList {
    open spec fn lists_out_edges(&self, v: SparseVert, all: Seq<SparseEdge>) -> bool {
        true
    }

    fn out_edges(&self, v: SparseVert) -> (all: Vec<SparseEdge>) {
        let ghost i = v.index_spec();
        proof {
            assert forall|n: usize| self.verts@[i].0@.contains(n) implies n < handle_limit() by {
                assert(self.edges@.contains_key(n));
            }
        }
        let all = keys_of::<SparseEdge>(&self.verts.index(v).0);
        proof {
            assert forall|e: SparseEdge| all@.contains(e) <==> out_edge_set(self, v).contains(
                e,
            ) by {
                assert(self.verts@[i].0@.contains(e.index_spec()) <==> self.edges@.contains_key(
                    e.index_spec(),
                ) && self.edges@[e.index_spec()].0.index_spec() == i);
                if self.edges@.contains_key(e.index_spec()) && self.edges@[e.index_spec()].0.index_spec()
                    == i {
                    SparseVert::lemma_index_injective(self.edges@[e.index_spec()].0, v);
                }
            }
        }
        all
    }
}

impl InGraph for SparseBiAdjacencyList {
    open spec fn lists_in_edges(&self, v: SparseVert, all: Seq<SparseEdge>) -> bool {
        true
    }

    fn in_edges(&self, v: SparseVert) -> (all: Vec<SparseEdge>) {
        let ghost i = v.index_spec();
        proof {
            assert forall|n: usize| self.verts@[i].1@.contains(n) implies n < handle_limit() by {
                assert(self.edges@.contains_key(n));
            }
        }
        let all = keys_of::<SparseEdge>(&self.verts.index(v).1);
        proof {
            assert forall|e: SparseEdge| all@.contains(e) <==> in_edge_set(self, v).contains(
                e,
            ) by {
                assert(self.verts@[i].1@.contains(e.index_spec()) <==> self.edges@.contains_key(
                    e.index_spec(),
                ) && self.edges@[e.index_spec()].1.index_spec() == i);
                if self.edges@.contains_key(e.index_spec()) && self.edges@[e.index_spec()].1.index_spec()
                    == i {
                    SparseVert::lemma_index_injective(self.edges@[e.index_spec()].1, v);
                }
            }
        }
        all
    }
}

impl Default for SparseBiAdjacencyList {
    /// The empty graph.
    fn default() -> (g: Self)
        ensures
            g.wf(),
            g.vert_set() == Set::<SparseVert>::empty(),
            g.edge_set() == Set::<SparseEdge>::empty(),
    {
        Self::new()
    }
}

impl InsertGraph for SparseBiAdjacencyList {
    closed spec fn vert_room(&self) -> nat {
        self.verts.room()
    }

    closed spec fn edge_room(&self) -> nat {
        self.edges.room()
    }

    open spec fn capacity() -> nat {
        handle_limit()
    }

    fn new() -> (g: Self)
        ensures
            g.free_verts() == Seq::<usize>::empty(),
            g.next_vert() == 0,
            g.free_edges() == Seq::<usize>::empty(),
            g.next_edge() == 0,
    {
        let g = SparseBiAdjacencyList { verts: Domain::default(), edges: Domain::default() };
        assert(g.vert_set() =~= Set::<SparseVert>::empty());
        assert(g.edge_set() =~= Set::<SparseEdge>::empty());
        g
    }

    fn insert_vert(&mut self) -> (v: SparseVert)
        ensures
            v.index_spec() == (if old(self).free_verts().len() > 0 {
                old(self).free_verts().last()
            } else {
                old(self).next_vert()
            }),
            final(self).free_verts() == (if old(self).free_verts().len() > 0 {
                old(self).free_verts().drop_last()
            } else {
                old(self).free_verts()
            }),
            final(self).next_vert() == (if old(self).free_verts().len() > 0 {
                old(self).next_vert() as int
            } else {
                old(self).next_vert() + 1
            }),
            final(self).free_edges() == old(self).free_edges(),
            final(self).next_edge() == old(self).next_edge(),
    {
        let v = self.verts.insert((HashSet::new(), HashSet::new()));
        proof {
            assert(self.vert_set() =~= old(self).vert_set().insert(v)) by {
                assert forall|u: SparseVert| self.vert_set().contains(u) <==> old(
                    self,
                ).vert_set().insert(v).contains(u) by {
                    if u.index_spec() == v.index_spec() {
                        SparseVert::lemma_index_injective(u, v);
                    }
                }
            }
            assert(self.edge_set() =~= old(self).edge_set());
            assert forall|i: usize, n: usize| self.verts@.contains_key(i) implies ((
            #[trigger] self.verts@[i]).0@.contains(n) <==> #[trigger] self.edges@.contains_key(n)
                && self.edges@[n].0.index_spec() == i) by {
                if i != v.index_spec() {
                    assert(old(self).verts@[i].0@.contains(n) <==> old(self).edges@.contains_key(n)
                        && old(self).edges@[n].0.index_spec() == i);
                }
            }
            assert forall|i: usize, n: usize| self.verts@.contains_key(i) implies ((
            #[trigger] self.verts@[i]).1@.contains(n) <==> #[trigger] self.edges@.contains_key(n)
                && self.edges@[n].1.index_spec() == i) by {
                if i != v.index_spec() {
                    assert(old(self).verts@[i].1@.contains(n) <==> old(self).edges@.contains_key(n)
                        && old(self).edges@[n].1.index_spec() == i);
                }
            }
        }
        v
    }

    fn insert_edge(&mut self, tail: SparseVert, head: SparseVert) -> (e: SparseEdge)
        ensures
            e.index_spec() == (if old(self).free_edges().len() > 0 {
                old(self).free_edges().last()
            } else {
                old(self).next_edge()
            }),
            final(self).free_edges() == (if old(self).free_edges().len() > 0 {
                old(self).free_edges().drop_last()
            } else {
                old(self).free_edges()
            }),
            final(self).next_edge() == (if old(self).free_edges().len() > 0 {
                old(self).next_edge() as int
            } else {
                old(self).next_edge() + 1
            }),
            final(self).free_verts() == old(self).free_verts(),
            final(self).next_vert() == old(self).next_vert(),
    {
        let e = self.edges.insert((tail, head));
        let number: usize = e.index();
        self.verts.index_mut(tail).0.insert(number);
        let ghost mid = *self;
        self.verts.index_mut(head).1.insert(number);
        proof {
            let t = tail.index_spec();
            let h = head.index_spec();
            assert(self.edge_set() =~= old(self).edge_set().insert(e)) by {
                assert forall|d: SparseEdge| self.edge_set().contains(d) <==> old(
                    self,
                ).edge_set().insert(e).contains(d) by {
                    if d.index_spec() == e.index_spec() {
                        SparseEdge::lemma_index_injective(d, e);
                    }
                }
            }
            assert(self.verts@.dom() =~= old(self).verts@.dom());
            assert(self.vert_set() =~= old(self).vert_set());
            assert forall|d: SparseEdge| old(self).edge_set().contains(d) implies self.endpoints_spec(
                d,
            ) == old(self).endpoints_spec(d) by {
                assert(d.index_spec() != e.index_spec());
            }
            assert forall|i: usize, n: usize| self.verts@.contains_key(i) implies ((
            #[trigger] self.verts@[i]).0@.contains(n) <==> #[trigger] self.edges@.contains_key(n)
                && self.edges@[n].0.index_spec() == i) by {
                assert(old(self).verts@[i].0@.contains(n) <==> old(self).edges@.contains_key(n)
                    && old(self).edges@[n].0.index_spec() == i);
                if i != t {
                    assert(mid.verts@[i] == old(self).verts@[i]);
                }
                if i != h {
                    assert(self.verts@[i] == mid.verts@[i]);
                }
            }
            assert forall|i: usize, n: usize| self.verts@.contains_key(i) implies ((
            #[trigger] self.verts@[i]).1@.contains(n) <==> #[trigger] self.edges@.contains_key(n)
                && self.edges@[n].1.index_spec() == i) by {
                assert(old(self).verts@[i].1@.contains(n) <==> old(self).edges@.contains_key(n)
                    && old(self).edges@[n].1.index_spec() == i);
                if i != t {
                    assert(mid.verts@[i] == old(self).verts@[i]);
                }
                if i != h {
                    assert(self.verts@[i] == mid.verts@[i]);
                }
            }
        }
        e
    }
}

} // verus!
