//! Module implementing a dense bi-adjacency list.

use vstd::prelude::*;
use super::dense::{lemma_keys_enumerate, lemma_positions_finite, DenseMap, Domain, Key};
use super::key::{handle_limit, DenseEdge, DenseVert};
use crate::digraph::{Digraph, EdgeMaps, VertMaps};
use crate::map::MapGet;
use crate::in_graph::{in_edge_set, InGraph};
use crate::insert_graph::InsertGraph;
use crate::out_graph::{out_edge_set, OutGraph};
use crate::seq_facts::copy_of;

verus! {

/// Dense bi-adjacency list directed graph representation: each vertex keeps
/// the edges that leave it and the edges that enter it, in the order of
/// their insertion.
pub struct DenseBiAdjacencyList {
    verts: Domain<DenseVert, (Vec<DenseEdge>, Vec<DenseEdge>)>,
    edges: Domain<DenseEdge, (DenseVert, DenseVert)>,
}

/// The end of an edge on the given side: the tail for the out side, the head
/// for the in side.
pub open spec fn end_of(ends: (DenseVert, DenseVert), out_side: bool) -> DenseVert {
    if out_side {
        ends.0
    } else {
        ends.1
    }
}

/// Whether the lists hold, for each vertex position, the edges that have the
/// vertex at the given side, each once.
pub open spec fn lists_match(
    lists: Seq<Seq<DenseEdge>>,
    edges: Seq<(DenseVert, DenseVert)>,
    out_side: bool,
) -> bool {
    &&& forall|i: int| 0 <= i < lists.len() ==> (#[trigger] lists[i]).no_duplicates()
    &&& forall|i: int, e: DenseEdge|
        0 <= i < lists.len() ==> ((#[trigger] lists[i]).contains(e) <==> (
        #[trigger] e.index_spec()) < edges.len() && end_of(
            edges[e.index_spec() as int],
            out_side,
        ).index_spec() == i)
}

/// The lists still match once a vertex without edges is added.
pub proof fn lemma_lists_grow(
    lists: Seq<Seq<DenseEdge>>,
    edges: Seq<(DenseVert, DenseVert)>,
    out_side: bool,
)
    requires
        lists_match(lists, edges, out_side),
        forall|i: int|
            0 <= i < edges.len() ==> end_of(#[trigger] edges[i], out_side).index_spec()
                < lists.len(),
    ensures
        lists_match(lists.push(Seq::empty()), edges, out_side),
{
    let longer = lists.push(Seq::empty());
    assert forall|i: int, e: DenseEdge| 0 <= i < longer.len() implies ((
    #[trigger] longer[i]).contains(e) <==> (#[trigger] e.index_spec()) < edges.len() && end_of(
        edges[e.index_spec() as int],
        out_side,
    ).index_spec() == i) by {
        if i < lists.len() {
            assert(longer[i] == lists[i]);
        } else {
            if e.index_spec() < edges.len() {
                assert(end_of(edges[e.index_spec() as int], out_side).index_spec() < lists.len());
            }
        }
    }
    assert forall|i: int| 0 <= i < longer.len() implies (#[trigger] longer[i]).no_duplicates() by {
        if i < lists.len() {
            assert(longer[i] == lists[i]);
        }
    }
}

/// The lists still match once a new edge is added to the list of its end.
pub proof fn lemma_lists_push(
    lists: Seq<Seq<DenseEdge>>,
    edges: Seq<(DenseVert, DenseVert)>,
    out_side: bool,
    e: DenseEdge,
    ends: (DenseVert, DenseVert),
)
    requires
        lists_match(lists, edges, out_side),
        e.index_spec() == edges.len(),
        end_of(ends, out_side).index_spec() < lists.len(),
    ensures
        lists_match(
            lists.update(
                end_of(ends, out_side).index_spec() as int,
                lists[end_of(ends, out_side).index_spec() as int].push(e),
            ),
            edges.push(ends),
            out_side,
        ),
{
    let t = end_of(ends, out_side).index_spec() as int;
    let list = lists[t];
    let after = lists.update(t, list.push(e));
    let more = edges.push(ends);
    assert(!list.contains(e));
    assert forall|i: int| 0 <= i < after.len() implies (#[trigger] after[i]).no_duplicates() by {
        if i == t {
            assert forall|a: int, b: int|
                0 <= a < after[t].len() && 0 <= b < after[t].len() && a != b implies after[t][a]
                != after[t][b] by {
                if a < list.len() {
                    assert(list.contains(list[a]));
                }
                if b < list.len() {
                    assert(list.contains(list[b]));
                }
            }
        } else {
            assert(after[i] == lists[i]);
        }
    }
    assert forall|i: int, d: DenseEdge| 0 <= i < after.len() implies ((
    #[trigger] after[i]).contains(d) <==> (#[trigger] d.index_spec()) < more.len() && end_of(
        more[d.index_spec() as int],
        out_side,
    ).index_spec() == i) by {
        if d.index_spec() == e.index_spec() {
            DenseEdge::lemma_index_injective(d, e);
        }
        if i == t {
            if list.contains(d) {
                let a = choose|a: int| 0 <= a < list.len() && list[a] == d;
                assert(after[t][a] == d);
            }
            if after[t].contains(d) {
                let a = choose|a: int| 0 <= a < after[t].len() && after[t][a] == d;
                if a < list.len() {
                    assert(list[a] == d);
                }
            }
            if d == e {
                assert(after[t][list.len() as int] == e);
            }
            assert(lists[i].contains(d) <==> d.index_spec() < edges.len() && end_of(
                edges[d.index_spec() as int],
                out_side,
            ).index_spec() == i);
        } else {
            assert(after[i] == lists[i]);
            assert(lists[i].contains(d) <==> d.index_spec() < edges.len() && end_of(
                edges[d.index_spec() as int],
                out_side,
            ).index_spec() == i);
        }
    }
}

impl DenseBiAdjacencyList {
    /// The number of vertices.
    pub closed spec fn order_spec(&self) -> nat {
        self.verts@.len()
    }

    /// The number of edges.
    pub closed spec fn size_spec(&self) -> nat {
        self.edges@.len()
    }

    /// The edges that leave `v`, in the order of their insertion.
    pub closed spec fn out_edges_spec(&self, v: DenseVert) -> Seq<DenseEdge> {
        self.verts@[v.index_spec() as int].0@
    }

    /// The edges that enter `v`, in the order of their insertion.
    pub closed spec fn in_edges_spec(&self, v: DenseVert) -> Seq<DenseEdge> {
        self.verts@[v.index_spec() as int].1@
    }

    /// The lists of leaving edges, by vertex position.
    spec fn outs(&self) -> Seq<Seq<DenseEdge>> {
        Seq::new(self.verts@.len(), |i: int| self.verts@[i].0@)
    }

    /// The lists of entering edges, by vertex position.
    spec fn ins(&self) -> Seq<Seq<DenseEdge>> {
        Seq::new(self.verts@.len(), |i: int| self.verts@[i].1@)
    }
}

impl Digraph for DenseBiAdjacencyList {
    type Vert = DenseVert;

    type Edge = DenseEdge;

    open spec fn lists_verts(&self, all: Seq<DenseVert>) -> bool {
        &&& all.len() == self.order_spec()
        &&& forall|i: int| 0 <= i < all.len() ==> (#[trigger] all[i]).index_spec() == i
    }

    open spec fn lists_edges(&self, all: Seq<DenseEdge>) -> bool {
        &&& all.len() == self.size_spec()
        &&& forall|i: int| 0 <= i < all.len() ==> (#[trigger] all[i]).index_spec() == i
    }

    closed spec fn wf(&self) -> bool {
        &&& self.verts@.len() <= handle_limit()
        &&& self.edges@.len() <= handle_limit()
        &&& forall|i: int|
            0 <= i < self.edges@.len() ==> (#[trigger] self.edges@[i]).0.index_spec()
                < self.verts@.len() && self.edges@[i].1.index_spec() < self.verts@.len()
        &&& lists_match(self.outs(), self.edges@, true)
        &&& lists_match(self.ins(), self.edges@, false)
    }

    open spec fn vert_set(&self) -> Set<DenseVert> {
        Set::new(|v: DenseVert| v.index_spec() < self.order_spec())
    }

    open spec fn edge_set(&self) -> Set<DenseEdge> {
        Set::new(|e: DenseEdge| e.index_spec() < self.size_spec())
    }

    closed spec fn endpoints_spec(&self, e: DenseEdge) -> (DenseVert, DenseVert) {
        self.edges@[e.index_spec() as int]
    }

    proof fn lemma_finite(&self) {
        lemma_positions_finite::<DenseVert>(self.verts@.len());
        assert(self.vert_set() =~= Set::new(|k: DenseVert| k.index_spec() < self.verts@.len()));
        lemma_positions_finite::<DenseEdge>(self.edges@.len());
        assert(self.edge_set() =~= Set::new(|k: DenseEdge| k.index_spec() < self.edges@.len()));
    }

    proof fn lemma_endpoints_are_verts(&self, e: DenseEdge) {
    }

    fn same_vert(a: DenseVert, b: DenseVert) -> (same: bool) {
        a == b
    }

    fn same_edge(a: DenseEdge, b: DenseEdge) -> (same: bool) {
        a == b
    }

    fn endpoints(&self, e: DenseEdge) -> (ends: (DenseVert, DenseVert)) {
        *self.edges.index(e)
    }

    fn verts(&self) -> (all: Vec<DenseVert>) {
        let all = self.verts.keys();
        proof {
            lemma_keys_enumerate(all@);
            assert forall|v: DenseVert| all@.contains(v) <==> self.vert_set().contains(v) by {
                if self.vert_set().contains(v) {
                    DenseVert::lemma_index_injective(all@[v.index_spec() as int], v);
                }
            }
        }
        all
    }

    fn edges(&self) -> (all: Vec<DenseEdge>) {
        let all = self.edges.keys();
        proof {
            lemma_keys_enumerate(all@);
            assert forall|e: DenseEdge| all@.contains(e) <==> self.edge_set().contains(e) by {
                if self.edge_set().contains(e) {
                    DenseEdge::lemma_index_injective(all@[e.index_spec() as int], e);
                }
            }
        }
        all
    }
}

impl<T: Copy> VertMaps<T> for DenseBiAdjacencyList {
    type VertMap = DenseMap<DenseVert, T>;

    fn vert_map(&self, default: T) -> (m: Self::VertMap)
        ensures
            m.default_spec() == default,
            forall|v: DenseVert| m.defined(v) && m.at(v) == default,
    {
        DenseMap::with_capacity(default, self.verts.len())
    }

    fn ephemeral_vert_map(&self, default: T) -> (m: Self::VertMap)
        ensures
            m.default_spec() == default,
            forall|v: DenseVert| m.defined(v) && m.at(v) == default,
    {
        DenseMap::with_capacity(default, self.verts.len())
    }
}

impl<T: Copy> EdgeMaps<T> for DenseBiAdjacencyList {
    type EdgeMap = DenseMap<DenseEdge, T>;

    fn edge_map(&self, default: T) -> (m: Self::EdgeMap)
        ensures
            m.default_spec() == default,
            forall|e: DenseEdge| m.defined(e) && m.at(e) == default,
    {
        DenseMap::with_capacity(default, self.edges.len())
    }

    fn ephemeral_edge_map(&self, default: T) -> (m: Self::EdgeMap)
        ensures
            m.default_spec() == default,
            forall|e: DenseEdge| m.defined(e) && m.at(e) == default,
    {
        DenseMap::with_capacity(default, self.edges.len())
    }
}

impl OutGraph for DenseBiAdjacencyList {
    open spec fn lists_out_edges(&self, v: DenseVert, all: Seq<DenseEdge>) -> bool {
        all == self.out_edges_spec(v)
    }

    fn out_edges(&self, v: DenseVert) -> (all: Vec<DenseEdge>)
        ensures
            all@ == self.out_edges_spec(v),
    {
        let all = copy_of(&self.verts.index(v).0);
        proof {
            let i = v.index_spec() as int;
            assert(all@ == self.outs()[i]);
            assert forall|e: DenseEdge| all@.contains(e) <==> out_edge_set(self, v).contains(
                e,
            ) by {
                assert(self.outs()[i].contains(e) <==> e.index_spec() < self.edges@.len()
                    && end_of(self.edges@[e.index_spec() as int], true).index_spec() == i);
                if e.index_spec() < self.edges@.len() && self.edges@[e.index_spec() as int].0.index_spec()
                    == i {
                    DenseVert::lemma_index_injective(self.edges@[e.index_spec() as int].0, v);
                }
            }
        }
        all
    }
}

impl InGraph for DenseBiAdjacencyList {
    open spec fn lists_in_edges(&self, v: DenseVert, all: Seq<DenseEdge>) -> bool {
        all == self.in_edges_spec(v)
    }

    fn in_edges(&self, v: DenseVert) -> (all: Vec<DenseEdge>)
        ensures
            all@ == self.in_edges_spec(v),
    {
        let all = copy_of(&self.verts.index(v).1);
        proof {
            let i = v.index_spec() as int;
            assert(all@ == self.ins()[i]);
            assert forall|e: DenseEdge| all@.contains(e) <==> in_edge_set(self, v).contains(
                e,
            ) by {
                assert(self.ins()[i].contains(e) <==> e.index_spec() < self.edges@.len() && end_of(
                    self.edges@[e.index_spec() as int],
                    false,
                ).index_spec() == i);
                if e.index_spec() < self.edges@.len() && self.edges@[e.index_spec() as int].1.index_spec()
                    == i {
                    DenseVert::lemma_index_injective(self.edges@[e.index_spec() as int].1, v);
                }
            }
        }
        all
    }
}

impl Default for DenseBiAdjacencyList {
    /// The empty graph.
    fn default() -> (g: Self)
        ensures
            g.wf(),
            g.vert_set() == Set::<DenseVert>::empty(),
            g.edge_set() == Set::<DenseEdge>::empty(),
    {
        Self::new()
    }
}

impl InsertGraph for DenseBiAdjacencyList {
    closed spec fn vert_room(&self) -> nat {
        (handle_limit() - self.verts@.len()) as nat
    }

    closed spec fn edge_room(&self) -> nat {
        (handle_limit() - self.edges@.len()) as nat
    }

    open spec fn capacity() -> nat {
        handle_limit()
    }

    fn new() -> (g: Self)
        ensures
            g.order_spec() == 0,
            g.size_spec() == 0,
    {
        let g = DenseBiAdjacencyList { verts: Domain::default(), edges: Domain::default() };
        assert(g.vert_set() =~= Set::<DenseVert>::empty());
        assert(g.edge_set() =~= Set::<DenseEdge>::empty());
        g
    }

    fn insert_vert(&mut self) -> (v: DenseVert)
        ensures
            v.index_spec() == old(self).order_spec(),
            final(self).order_spec() == old(self).order_spec() + 1,
            final(self).size_spec() == old(self).size_spec(),
            final(self).out_edges_spec(v) == Seq::<DenseEdge>::empty(),
            final(self).in_edges_spec(v) == Seq::<DenseEdge>::empty(),
            forall|u: DenseVert|
                old(self).vert_set().contains(u) ==> final(self).out_edges_spec(u) == old(
                    self,
                ).out_edges_spec(u) && final(self).in_edges_spec(u) == old(self).in_edges_spec(u),
    {
        let v = self.verts.insert((Vec::new(), Vec::new()));
        proof {
            assert(self.vert_set() =~= old(self).vert_set().insert(v)) by {
                assert forall|u: DenseVert| self.vert_set().contains(u) implies old(
                    self,
                ).vert_set().insert(v).contains(u) by {
                    if u.index_spec() == v.index_spec() {
                        DenseVert::lemma_index_injective(u, v);
                    }
                }
            }
            assert(self.edge_set() =~= old(self).edge_set());
            lemma_lists_grow(old(self).outs(), self.edges@, true);
            lemma_lists_grow(old(self).ins(), self.edges@, false);
            assert(self.outs() =~= old(self).outs().push(Seq::empty()));
            assert(self.ins() =~= old(self).ins().push(Seq::empty()));
        }
        v
    }

    fn insert_edge(&mut self, tail: DenseVert, head: DenseVert) -> (e: DenseEdge)
        ensures
            e.index_spec() == old(self).size_spec(),
            final(self).size_spec() == old(self).size_spec() + 1,
            final(self).order_spec() == old(self).order_spec(),
            final(self).out_edges_spec(tail) == old(self).out_edges_spec(tail).push(e),
            final(self).in_edges_spec(head) == old(self).in_edges_spec(head).push(e),
            forall|u: DenseVert|
                old(self).vert_set().contains(u) && u != tail ==> final(self).out_edges_spec(u)
                    == old(self).out_edges_spec(u),
            forall|u: DenseVert|
                old(self).vert_set().contains(u) && u != head ==> final(self).in_edges_spec(u)
                    == old(self).in_edges_spec(u),
    {
        let e = self.edges.insert((tail, head));
        self.verts.index_mut(tail).0.push(e);
        let ghost mid = *self;
        self.verts.index_mut(head).1.push(e);
        proof {
            let t = tail.index_spec() as int;
            let h = head.index_spec() as int;
            assert(self.edge_set() =~= old(self).edge_set().insert(e)) by {
                assert forall|d: DenseEdge| self.edge_set().contains(d) implies old(
                    self,
                ).edge_set().insert(e).contains(d) by {
                    if d.index_spec() == e.index_spec() {
                        DenseEdge::lemma_index_injective(d, e);
                    }
                }
            }
            assert(self.vert_set() =~= old(self).vert_set());
            lemma_lists_push(old(self).outs(), old(self).edges@, true, e, (tail, head));
            lemma_lists_push(old(self).ins(), old(self).edges@, false, e, (tail, head));
            assert(mid.outs() =~= old(self).outs().update(t, old(self).outs()[t].push(e)));
            assert(mid.ins() =~= old(self).ins());
            assert(self.outs() =~= mid.outs());
            assert(self.ins() =~= old(self).ins().update(h, old(self).ins()[h].push(e)));
            assert forall|u: DenseVert| u != tail implies u.index_spec() != tail.index_spec() by {
                if u.index_spec() == tail.index_spec() {
                    DenseVert::lemma_index_injective(u, tail);
                }
            }
            assert forall|u: DenseVert| u != head implies u.index_spec() != head.index_spec() by {
                if u.index_spec() == head.index_spec() {
                    DenseVert::lemma_index_injective(u, head);
                }
            }
        }
        e
    }
}

} // verus!
