//! Module implementing an immutable in-adjacency list.

use vstd::prelude::*;
use super::dense::{lemma_keys_enumerate, lemma_positions_finite, DenseMap, Domain, Key};
use super::key::{handle_limit, DenseEdge, DenseVert};
use crate::digraph::{Digraph, EdgeMaps, VertMaps};
use crate::homomorphism::{is_isomorphism, Homomorphism};
use crate::map::{MapGet, MapMut, Unwrap};
use crate::in_graph::{in_edge_set, InGraph};
use crate::seq_facts::{enumerates, lemma_enumerated_len, lemma_seq_within_set};

verus! {

/// Immutable in-adjacency list directed graph representation, built once
/// from a finished graph. The edges are numbered so that the edges that
/// enter one vertex follow each other: `ins` holds for each vertex the
/// first edge that enters it, and the number of edges at its end; `tails`
/// holds the tail of each edge.
#[derive(Debug)]
pub struct ImmutableInAdjacencyList {
    ins: Domain<DenseVert, DenseEdge>,
    tails: Domain<DenseEdge, DenseVert>,
}

impl ImmutableInAdjacencyList {
    /// The number of vertices.
    pub closed spec fn order_spec(&self) -> nat {
        (self.ins@.len() - 1) as nat
    }

    /// The number of edges.
    pub closed spec fn size_spec(&self) -> nat {
        self.tails@.len()
    }

    /// Whether the edge at position `k` is among those that enter the vertex
    /// at position `i`.
    spec fn in_run(&self, i: int, k: int) -> bool {
        &&& 0 <= i < self.ins@.len() - 1
        &&& self.ins@[i].index_spec() <= k < self.ins@[i + 1].index_spec()
    }

    /// The position of the vertex that the edge at position `k` enters.
    spec fn head_index(&self, k: int) -> int {
        choose|i: int| #[trigger] self.in_run(i, k)
    }

    /// The vertex that the edge `e` enters.
    spec fn head_spec(&self, e: DenseEdge) -> DenseVert {
        choose|v: DenseVert| v.index_spec() == self.head_index(e.index_spec() as int)
    }

    /// An edge enters the vertex in whose run of edges it lies, and no
    /// other.
    proof fn lemma_head_index(&self, k: int, i: int)
        requires
            self.wf(),
            0 <= i < self.ins@.len() - 1,
            self.ins@[i].index_spec() <= k < self.ins@[i + 1].index_spec(),
        ensures
            self.head_index(k) == i,
    {
        let j = self.head_index(k);
        assert(self.in_run(i, k));
        assert(self.in_run(j, k));
        if j < i {
            assert(self.ins@[j + 1].index_spec() <= self.ins@[i].index_spec());
        }
        if i < j {
            assert(self.ins@[i + 1].index_spec() <= self.ins@[j].index_spec());
        }
    }

    /// Every edge enters a vertex of the graph.
    proof fn lemma_head_exists(&self, k: int)
        requires
            self.wf(),
            0 <= k < self.tails@.len(),
        ensures
            0 <= self.head_index(k) < self.ins@.len() - 1,
            self.ins@[self.head_index(k)].index_spec() <= k < self.ins@[self.head_index(k)
                + 1].index_spec(),
    {
        self.lemma_run_exists(k, self.ins@.len() - 1);
        let i = choose|i: int| 0 <= i < self.ins@.len() - 1 && #[trigger] self.in_run(i, k);
        assert(self.in_run(self.head_index(k), k));
    }

    /// An edge below the first edge of the vertex at `bound` lies in the run
    /// of a vertex before `bound`.
    proof fn lemma_run_exists(&self, k: int, bound: int)
        requires
            self.wf(),
            0 <= bound < self.ins@.len(),
            0 <= k < self.ins@[bound].index_spec(),
        ensures
            exists|i: int| 0 <= i < bound && #[trigger] self.in_run(i, k),
        decreases bound,
    {
        if bound > 0 {
            if self.ins@[bound - 1].index_spec() <= k {
                assert(self.in_run(bound - 1, k));
            } else {
                self.lemma_run_exists(k, bound - 1);
                let i = choose|i: int| 0 <= i < bound - 1 && #[trigger] self.in_run(i, k);
                assert(0 <= i < bound && self.in_run(i, k));
            }
        }
    }

    /// Returns the position of the vertex that the edge `e` enters: the
    /// number of vertices whose first edge is not after `e`, less one.
    fn head_position(&self, e: DenseEdge) -> (i: usize)
        requires
            self.wf(),
            e.index_spec() < self.tails@.len(),
        ensures
            i == self.head_index(e.index_spec() as int),
            i < self.ins@.len() - 1,
    {
        let target: usize = e.index();
        let offsets = self.ins.values();
        let mut low: usize = 0;
        let mut high: usize = offsets.len();
        while low < high
            invariant
                self.wf(),
                offsets@ == self.ins@,
                target == e.index_spec(),
                target < self.tails@.len(),
                low <= high <= offsets@.len(),
                forall|i: int| 0 <= i < low ==> (#[trigger] offsets@[i]).index_spec() <= target,
                forall|i: int|
                    high <= i < offsets@.len() ==> (#[trigger] offsets@[i]).index_spec() > target,
            decreases high - low,
        {
            let middle: usize = low + (high - low) / 2;
            if offsets[middle].index() <= target {
                proof {
                    assert forall|i: int| 0 <= i < middle + 1 implies (
                    #[trigger] offsets@[i]).index_spec() <= target by {
                        if i < middle {
                            assert(offsets@[i].index_spec() <= offsets@[middle as int].index_spec());
                        }
                    }
                }
                low = middle + 1;
            } else {
                proof {
                    assert forall|i: int| middle <= i < offsets@.len() implies (
                    #[trigger] offsets@[i]).index_spec() > target by {
                        if middle < i {
                            assert(offsets@[middle as int].index_spec() <= offsets@[i].index_spec());
                        }
                    }
                }
                high = middle;
            }
        }
        proof {
            assert(offsets@[0].index_spec() == 0);
            assert(offsets@[offsets@.len() - 1].index_spec() == self.tails@.len());
            assert(low >= 1) by {
                if low == 0 {
                    assert(offsets@[0].index_spec() > target);
                }
            }
            assert(low <= offsets@.len() - 1) by {
                if low == offsets@.len() {
                    assert(offsets@[offsets@.len() - 1].index_spec() <= target);
                }
            }
            self.lemma_head_index(target as int, low - 1);
        }
        low - 1
    }
}

/// What holds while the lists are filled from the graph `from`: the edges
/// `done` of `from` were copied in their order, each entering the vertex at
/// the position that `owner` gives for it, and the first edges `ins` of the
/// vertices so far lead into the copies in step.
pub open spec fn building<
    G: InGraph,
    VM: MapGet<G::Vert, Value = Option<DenseVert>>,
    EM: MapGet<G::Edge, Value = Option<DenseEdge>>,
>(
    from: &G,
    verts: Seq<G::Vert>,
    vmap: &VM,
    emap: &EM,
    ins: Seq<DenseEdge>,
    tails: Seq<DenseVert>,
    done: Seq<G::Edge>,
    owner: Seq<int>,
) -> bool {
    &&& ins.len() <= verts.len() + 1
    &&& tails.len() == done.len()
    &&& owner.len() == done.len()
    &&& done.no_duplicates()
    &&& forall|k: int|
        0 <= k < done.len() ==> {
            &&& from.edge_set().contains(#[trigger] done[k])
            &&& emap.at(done[k]) is Some
            &&& emap.at(done[k]).unwrap().index_spec() == k
            &&& vmap.at(from.endpoints_spec(done[k]).0) == Some(tails[k])
            &&& 0 <= owner[k] < ins.len()
            &&& owner[k] < verts.len()
            &&& from.endpoints_spec(done[k]).1 == verts[owner[k]]
            &&& ins[owner[k]].index_spec() <= k
            &&& owner[k] + 1 < ins.len() ==> k < ins[owner[k] + 1].index_spec()
        }
    &&& forall|s: int, t: int|
        0 <= s <= t < ins.len() ==> (#[trigger] ins[s]).index_spec() <= (
        #[trigger] ins[t]).index_spec()
    &&& forall|t: int| 0 <= t < ins.len() ==> (#[trigger] ins[t]).index_spec() <= tails.len()
    &&& ins.len() > 0 ==> ins[0].index_spec() == 0
    &&& forall|k: int| 0 <= k < tails.len() ==> (#[trigger] tails[k]).index_spec() < verts.len()
}

impl ImmutableInAdjacencyList {
    /// Constructs a graph isomorphic to the given graph and returns it along
    /// with mappings from the given graph's vertices and edges to those in
    /// the new graph. The vertices of the new graph stand in the order in
    /// which `from` lists its vertices.
    pub fn isomorphic_from<G>(from: &G) -> (copy: (
        Self,
        Homomorphism<
            <G as VertMaps<Option<DenseVert>>>::VertMap,
            <G as EdgeMaps<Option<DenseEdge>>>::EdgeMap,
        >,
    )) where G: InGraph + VertMaps<Option<DenseVert>> + EdgeMaps<Option<DenseEdge>>
        requires
            from.wf(),
            from.vert_set().len() < handle_limit(),
            from.edge_set().len() < handle_limit(),
        ensures
            copy.0.wf(),
            forall|v: G::Vert| from.vert_set().contains(v) ==> copy.1.vert_map_spec().defined(v),
            forall|e: G::Edge| from.edge_set().contains(e) ==> copy.1.edge_map_spec().defined(e),
            is_isomorphism(from, &copy.0, copy.1.vert_map_spec(), copy.1.edge_map_spec()),
    {
        let verts = from.verts();
        proof {
            from.lemma_finite();
            lemma_enumerated_len(verts@, from.vert_set());
        }
        let mut vmap = from.ephemeral_vert_map(None);
        let mut i: usize = 0;
        while i < verts.len()
            invariant
                i <= verts@.len(),
                verts@.len() < handle_limit(),
                verts@.no_duplicates(),
                forall|v: G::Vert| vmap.defined(v),
                forall|t: int|
                    0 <= t < i ==> (#[trigger] vmap.at(verts@[t])) is Some && vmap.at(
                        verts@[t],
                    ).unwrap().index_spec() == t,
            decreases verts@.len() - i,
        {
            let ghost before = vmap;
            *vmap.get_mut(verts[i]) = Some(DenseVert::from_index(i));
            proof {
                assert forall|t: int| 0 <= t < i + 1 implies (#[trigger] vmap.at(verts@[t])) is Some
                    && vmap.at(verts@[t]).unwrap().index_spec() == t by {
                    if t < i {
                        assert(verts@[t] != verts@[i as int]);
                        assert(before.at(verts@[t]) is Some);
                    }
                }
            }
            i += 1;
        }
        let mut emap = from.ephemeral_edge_map(None);
        let mut ins: Domain<DenseVert, DenseEdge> = Domain::default();
        let mut tails: Domain<DenseEdge, DenseVert> = Domain::default();
        let ghost mut done: Seq<G::Edge> = Seq::empty();
        let ghost mut owner: Seq<int> = Seq::empty();
        let mut i: usize = 0;
        while i < verts.len()
            invariant
                i <= verts@.len(),
                from.wf(),
                from.edge_set().finite(),
                from.edge_set().len() < handle_limit(),
                verts@.len() < handle_limit(),
                enumerates(verts@, from.vert_set()),
                forall|v: G::Vert| vmap.defined(v),
                forall|e: G::Edge| emap.defined(e),
                forall|t: int|
                    0 <= t < verts@.len() ==> (#[trigger] vmap.at(verts@[t])) is Some && vmap.at(
                        verts@[t],
                    ).unwrap().index_spec() == t,
                ins@.len() == i,
                building(from, verts@, &vmap, &emap, ins@, tails@, done, owner),
                forall|e: G::Edge, t: int|
                    from.edge_set().contains(e) && 0 <= t < i && from.endpoints_spec(e).1
                        == #[trigger] verts@[t] ==> #[trigger] done.contains(e),
            decreases verts@.len() - i,
        {
            let near = verts[i];
            proof {
                lemma_seq_within_set(done, from.edge_set());
                assert(verts@.contains(near));
            }
            let ghost ins_before = ins@;
            ins.insert(DenseEdge::from_index(tails.len()));
            let adjacent = from.in_edges(near);
            proof {
                assert forall|k: int| 0 <= k < done.len() implies {
                    &&& from.edge_set().contains(#[trigger] done[k])
                    &&& emap.at(done[k]) is Some
                    &&& emap.at(done[k]).unwrap().index_spec() == k
                    &&& vmap.at(from.endpoints_spec(done[k]).0) == Some(tails@[k])
                    &&& 0 <= owner[k] < ins@.len()
                    &&& owner[k] < verts@.len()
                    &&& from.endpoints_spec(done[k]).1 == verts@[owner[k]]
                    &&& ins@[owner[k]].index_spec() <= k
                    &&& owner[k] + 1 < ins@.len() ==> k < ins@[owner[k] + 1].index_spec()
                } by {
                    assert(from.edge_set().contains(done[k]));
                    assert(ins@[owner[k]] == ins_before[owner[k]]);
                    if owner[k] + 1 < ins_before.len() {
                        assert(ins@[owner[k] + 1] == ins_before[owner[k] + 1]);
                    }
                }
                if i == 0 {
                    if done.len() > 0 {
                        assert(from.edge_set().contains(done[0]));
                    }
                } else {
                    assert(ins@[0] == ins_before[0]);
                }
                assert forall|t: int| 0 <= t < ins@.len() implies (
                #[trigger] ins@[t]).index_spec() <= tails@.len() by {
                    if t < i {
                        assert(ins@[t] == ins_before[t]);
                    }
                }
                assert forall|s: int, t: int| 0 <= s <= t < ins@.len() implies (
                #[trigger] ins@[s]).index_spec() <= (#[trigger] ins@[t]).index_spec() by {
                    if t < i {
                        assert(ins@[s] == ins_before[s]);
                        assert(ins@[t] == ins_before[t]);
                    } else if s < i {
                        assert(ins@[s] == ins_before[s]);
                        assert(ins_before[s].index_spec() <= tails@.len());
                    }
                }
                assert(building(from, verts@, &vmap, &emap, ins@, tails@, done, owner));
            }
            let ghost base = done.len();
            let mut j: usize = 0;
            while j < adjacent.len()
                invariant
                    j <= adjacent@.len(),
                    i < verts@.len(),
                    near == verts@[i as int],
                    from.wf(),
                    from.edge_set().finite(),
                    from.edge_set().len() < handle_limit(),
                    verts@.len() < handle_limit(),
                    enumerates(verts@, from.vert_set()),
                    enumerates(adjacent@, in_edge_set(from, near)),
                    forall|v: G::Vert| vmap.defined(v),
                    forall|e: G::Edge| emap.defined(e),
                    forall|t: int|
                        0 <= t < verts@.len() ==> (#[trigger] vmap.at(verts@[t])) is Some && vmap.at(
                            verts@[t],
                        ).unwrap().index_spec() == t,
                    ins@.len() == i + 1,
                    ins@[i as int].index_spec() == base,
                    done.len() == base + j,
                    forall|a: int| 0 <= a < j ==> done[base + a] == #[trigger] adjacent@[a],
                    forall|k: int| 0 <= k < base ==> from.endpoints_spec(#[trigger] done[k]).1 != near,
                    building(from, verts@, &vmap, &emap, ins@, tails@, done, owner),
                    forall|e: G::Edge, t: int|
                        from.edge_set().contains(e) && 0 <= t < i && from.endpoints_spec(e).1
                            == #[trigger] verts@[t] ==> #[trigger] done.contains(e),
                decreases adjacent@.len() - j,
            {
                let e = adjacent[j];
                proof {
                    assert(adjacent@.contains(e));
                    assert(in_edge_set(from, near).contains(e));
                    from.lemma_endpoints_are_verts(e);
                    lemma_seq_within_set(done, from.edge_set());
                    let h = from.endpoints_spec(e).0;
                    assert(verts@.contains(h));
                    let t = choose|t: int| 0 <= t < verts@.len() && verts@[t] == h;
                    assert(vmap.at(verts@[t]) is Some);
                    assert(!done.contains(e)) by {
                        if done.contains(e) {
                            let k = choose|k: int| 0 <= k < done.len() && done[k] == e;
                            if k < base {
                                assert(from.endpoints_spec(done[k]).1 != near);
                            } else {
                                assert(done[base + (k - base)] == adjacent@[k - base]);
                                assert(adjacent@[k - base] == adjacent@[j as int]);
                            }
                        }
                    }
                }
                let far = from.tail(e);
                let image = DenseEdge::from_index(tails.len());
                let ghost emap_before = emap;
                *emap.get_mut(e) = Some(image);
                let far_image = match *vmap.get(far) {
                    Some(far_image) => far_image,
                    None => vstd::pervasive::unreached(),
                };
                let ghost tails_before = tails@;
                tails.insert(far_image);
                proof {
                    let longer = done.push(e);
                    let owners = owner.push(i as int);
                    let h = from.endpoints_spec(e).0;
                    let t = choose|t: int| 0 <= t < verts@.len() && verts@[t] == h;
                    assert(vmap.at(verts@[t]).unwrap().index_spec() == t);
                    assert forall|a: int, b: int|
                        0 <= a < longer.len() && 0 <= b < longer.len() && a != b implies longer[a]
                        != longer[b] by {
                        if a < done.len() {
                            assert(done.contains(done[a]));
                        }
                        if b < done.len() {
                            assert(done.contains(done[b]));
                        }
                    }
                    assert forall|k: int| 0 <= k < longer.len() implies {
                        &&& from.edge_set().contains(#[trigger] longer[k])
                        &&& emap.at(longer[k]) is Some
                        &&& emap.at(longer[k]).unwrap().index_spec() == k
                        &&& vmap.at(from.endpoints_spec(longer[k]).0) == Some(tails@[k])
                        &&& 0 <= owners[k] < ins@.len()
                        &&& owners[k] < verts@.len()
                        &&& from.endpoints_spec(longer[k]).1 == verts@[owners[k]]
                        &&& ins@[owners[k]].index_spec() <= k
                        &&& owners[k] + 1 < ins@.len() ==> k < ins@[owners[k] + 1].index_spec()
                    } by {
                        if k < done.len() {
                            assert(done.contains(done[k]));
                            assert(from.edge_set().contains(done[k]));
                            assert(emap.at(done[k]) == emap_before.at(done[k]));
                            assert(tails@[k] == tails_before[k]);
                        }
                    }
                    assert forall|k: int| 0 <= k < tails@.len() implies (
                    #[trigger] tails@[k]).index_spec() < verts@.len() by {
                        if k < tails_before.len() {
                            assert(tails@[k] == tails_before[k]);
                        }
                    }
                    assert forall|a: int| 0 <= a < j + 1 implies longer[base + a]
                        == #[trigger] adjacent@[a] by {
                        if a < j {
                            assert(done[base + a] == adjacent@[a]);
                        }
                    }
                    assert forall|k: int| 0 <= k < base implies from.endpoints_spec(
                        #[trigger] longer[k],
                    ).1 != near by {
                        assert(longer[k] == done[k]);
                    }
                    assert forall|d: G::Edge, t: int|
                        from.edge_set().contains(d) && 0 <= t < i && from.endpoints_spec(d).1
                            == #[trigger] verts@[t] implies #[trigger] longer.contains(d) by {
                        assert(done.contains(d));
                        let k = choose|k: int| 0 <= k < done.len() && done[k] == d;
                        assert(longer[k] == d);
                    }
                    done = longer;
                    owner = owners;
                }
                j += 1;
            }
            proof {
                assert forall|e: G::Edge, t: int|
                    from.edge_set().contains(e) && 0 <= t < i + 1 && from.endpoints_spec(e).1
                        == #[trigger] verts@[t] implies #[trigger] done.contains(e) by {
                    if t == i {
                        assert(in_edge_set(from, near).contains(e));
                        assert(adjacent@.contains(e));
                        let a = choose|a: int| 0 <= a < adjacent@.len() && adjacent@[a] == e;
                        assert(done[base + a] == adjacent@[a]);
                    }
                }
            }
            i += 1;
        }
        proof {
            lemma_seq_within_set(done, from.edge_set());
        }
        let ghost ins_before = ins@;
        ins.insert(DenseEdge::from_index(tails.len()));
        let g = ImmutableInAdjacencyList { ins, tails };
        let vert_map = Unwrap::new(vmap);
        let edge_map = Unwrap::new(emap);
        proof {
            let n = verts@.len() as int;
            assert forall|s: int, t: int| 0 <= s <= t < g.ins@.len() implies (
            #[trigger] g.ins@[s]).index_spec() <= (#[trigger] g.ins@[t]).index_spec() by {
                if t < n {
                    assert(g.ins@[s] == ins_before[s]);
                    assert(g.ins@[t] == ins_before[t]);
                } else if s < n {
                    assert(g.ins@[s] == ins_before[s]);
                    assert(ins_before[s].index_spec() <= g.tails@.len());
                }
            }
            if n > 0 {
                assert(g.ins@[0] == ins_before[0]);
            } else {
                if done.len() > 0 {
                    assert(from.edge_set().contains(done[0]));
                }
            }
            assert(g.ins@[g.ins@.len() - 1].index_spec() == g.tails@.len());
            assert forall|k: int| 0 <= k < g.tails@.len() implies (
            #[trigger] g.tails@[k]).index_spec() < g.ins@.len() - 1 by {}
            assert(g.wf());
            assert forall|k: int| 0 <= k < done.len() implies g.in_run(owner[k], k) by {
                assert(from.edge_set().contains(done[k]));
                assert(g.ins@[owner[k]] == ins_before[owner[k]]);
                if owner[k] + 1 < n {
                    assert(g.ins@[owner[k] + 1] == ins_before[owner[k] + 1]);
                }
            }
            assert forall|v: G::Vert| from.vert_set().contains(v) implies vert_map.defined(v)
                && g.vert_set().contains(#[trigger] vert_map.at(v)) by {
                assert(verts@.contains(v));
                let t = choose|t: int| 0 <= t < verts@.len() && verts@[t] == v;
                assert(vmap.at(verts@[t]) is Some);
            }
            assert forall|a: G::Vert, b: G::Vert|
                from.vert_set().contains(a) && from.vert_set().contains(b) && #[trigger] vert_map.at(
                    a,
                ) == #[trigger] vert_map.at(b) implies a == b by {
                assert(verts@.contains(a));
                assert(verts@.contains(b));
                let s = choose|s: int| 0 <= s < verts@.len() && verts@[s] == a;
                let t = choose|t: int| 0 <= t < verts@.len() && verts@[t] == b;
                assert(vmap.at(verts@[s]).unwrap().index_spec() == s);
                assert(vmap.at(verts@[t]).unwrap().index_spec() == t);
            }
            assert forall|w: DenseVert| g.vert_set().contains(w) implies exists|v: G::Vert|
                from.vert_set().contains(v) && #[trigger] vert_map.at(v) == w by {
                let t = w.index_spec() as int;
                assert(vmap.at(verts@[t]).unwrap().index_spec() == t);
                DenseVert::lemma_index_injective(vmap.at(verts@[t]).unwrap(), w);
                assert(verts@.contains(verts@[t]));
                assert(from.vert_set().contains(verts@[t]) && vert_map.at(verts@[t]) == w);
            }
            assert forall|e: G::Edge| from.edge_set().contains(e) implies done.contains(e) by {
                from.lemma_endpoints_are_verts(e);
                assert(verts@.contains(from.endpoints_spec(e).1));
                let t = choose|t: int|
                    0 <= t < verts@.len() && verts@[t] == from.endpoints_spec(e).1;
                assert(from.endpoints_spec(e).1 == verts@[t]);
            }
            assert forall|e: G::Edge| from.edge_set().contains(e) implies edge_map.defined(e) by {
                assert(done.contains(e));
                let k = choose|k: int| 0 <= k < done.len() && done[k] == e;
                assert(from.edge_set().contains(done[k]));
            }
            assert forall|v: G::Vert| from.vert_set().contains(v) implies vert_map.defined(v) by {
                assert(verts@.contains(v));
                let t = choose|t: int| 0 <= t < verts@.len() && verts@[t] == v;
                assert(vmap.at(verts@[t]) is Some);
            }
            assert forall|e: G::Edge| from.edge_set().contains(e) implies edge_map.defined(e)
                && g.edge_set().contains(edge_map.at(e)) && g.endpoints_spec(
                #[trigger] edge_map.at(e),
            ) == (
                vert_map.at(from.endpoints_spec(e).0),
                vert_map.at(from.endpoints_spec(e).1),
            ) by {
                assert(done.contains(e));
                let k = choose|k: int| 0 <= k < done.len() && done[k] == e;
                assert(from.edge_set().contains(done[k]));
                let image = emap.at(e).unwrap();
                assert(image.index_spec() == k);
                assert(g.in_run(owner[k], k));
                g.lemma_head_index(k, owner[k]);
                let near_image = vmap.at(verts@[owner[k]]).unwrap();
                assert(near_image.index_spec() == owner[k]);
                DenseVert::lemma_index_injective(g.head_spec(image), near_image);
            }
            assert forall|a: G::Edge, b: G::Edge|
                from.edge_set().contains(a) && from.edge_set().contains(b) && #[trigger] edge_map.at(
                    a,
                ) == #[trigger] edge_map.at(b) implies a == b by {
                assert(done.contains(a));
                assert(done.contains(b));
                let s = choose|s: int| 0 <= s < done.len() && done[s] == a;
                let t = choose|t: int| 0 <= t < done.len() && done[t] == b;
                assert(emap.at(done[s]).unwrap().index_spec() == s);
                assert(emap.at(done[t]).unwrap().index_spec() == t);
            }
            assert forall|w: DenseEdge| g.edge_set().contains(w) implies exists|e: G::Edge|
                from.edge_set().contains(e) && #[trigger] edge_map.at(e) == w by {
                let k = w.index_spec() as int;
                assert(from.edge_set().contains(done[k]));
                DenseEdge::lemma_index_injective(emap.at(done[k]).unwrap(), w);
                assert(from.edge_set().contains(done[k]) && edge_map.at(done[k]) == w);
            }
        }
        (g, Homomorphism::new(vert_map, edge_map))
    }

    /// Constructs a graph isomorphic to the given graph.
    pub fn from_graph<G>(from: &G) -> (copy: Self) where
        G: InGraph + VertMaps<Option<DenseVert>> + EdgeMaps<Option<DenseEdge>>,

        requires
            from.wf(),
            from.vert_set().len() < handle_limit(),
            from.edge_set().len() < handle_limit(),
        ensures
            copy.wf(),
            exists|
                vert_map: Unwrap<<G as VertMaps<Option<DenseVert>>>::VertMap>,
                edge_map: Unwrap<<G as EdgeMaps<Option<DenseEdge>>>::EdgeMap>,
            | #[trigger] is_isomorphism(from, &copy, &vert_map, &edge_map),
    {
        let (copy, maps) = Self::isomorphic_from(from);
        proof {
            assert(is_isomorphism(from, &copy, maps.vert_map_spec(), maps.edge_map_spec()));
        }
        copy
    }
}

impl Digraph for ImmutableInAdjacencyList {
    type Vert = DenseVert;

    type Edge = DenseEdge;

    open spec fn lists_verts(&self, all: Seq<DenseVert>) -> bool {
        &&& all.len() == self.order_spec()
        &&& forall|i: int| 0 <= i < all.len() ==> (#[trigger] all[i]).index_spec() == i
    }

    open spec fn lists_edges(&self, all: Seq<DenseEdge>) -> bool {
        &&& all.len() == self.size_spec()
        &&& forall|i: int| 0 <= i < all.len() ==> (#[trigger] all[i]).index_spec() == i
    }

    closed spec fn wf(&self) -> bool {
        &&& 1 <= self.ins@.len() <= handle_limit()
        &&& self.tails@.len() < handle_limit()
        &&& self.ins@[0].index_spec() == 0
        &&& self.ins@[self.ins@.len() - 1].index_spec() == self.tails@.len()
        &&& forall|i: int, j: int|
            0 <= i <= j < self.ins@.len() ==> (#[trigger] self.ins@[i]).index_spec() <= (
            #[trigger] self.ins@[j]).index_spec()
        &&& forall|k: int|
            0 <= k < self.tails@.len() ==> (#[trigger] self.tails@[k]).index_spec()
                < self.ins@.len() - 1
    }

    open spec fn vert_set(&self) -> Set<DenseVert> {
        Set::new(|v: DenseVert| v.index_spec() < self.order_spec())
    }

    open spec fn edge_set(&self) -> Set<DenseEdge> {
        Set::new(|e: DenseEdge| e.index_spec() < self.size_spec())
    }

    closed spec fn endpoints_spec(&self, e: DenseEdge) -> (DenseVert, DenseVert) {
        (self.tails@[e.index_spec() as int], self.head_spec(e))
    }

    proof fn lemma_finite(&self) {
        lemma_positions_finite::<DenseVert>((self.ins@.len() - 1) as nat);
        assert(self.vert_set() =~= Set::new(
            |k: DenseVert| k.index_spec() < (self.ins@.len() - 1) as nat,
        ));
        lemma_positions_finite::<DenseEdge>(self.tails@.len());
        assert(self.edge_set() =~= Set::new(|k: DenseEdge| k.index_spec() < self.tails@.len()));
    }

    proof fn lemma_endpoints_are_verts(&self, e: DenseEdge) {
        self.lemma_head_exists(e.index_spec() as int);
        DenseVert::lemma_key_exists(self.head_index(e.index_spec() as int) as usize);
    }

    fn same_vert(a: DenseVert, b: DenseVert) -> (same: bool) {
        a == b
    }

    fn same_edge(a: DenseEdge, b: DenseEdge) -> (same: bool) {
        a == b
    }

    fn endpoints(&self, e: DenseEdge) -> (ends: (DenseVert, DenseVert)) {
        (self.tail(e), self.head(e))
    }

    fn tail(&self, e: DenseEdge) -> (v: DenseVert) {
        *self.tails.index(e)
    }

    fn head(&self, e: DenseEdge) -> (v: DenseVert) {
        let v = DenseVert::from_index(self.head_position(e));
        proof {
            DenseVert::lemma_index_injective(v, self.head_spec(e));
        }
        v
    }

    fn verts(&self) -> (all: Vec<DenseVert>) {
        let count: usize = self.ins.len() - 1;
        let mut all: Vec<DenseVert> = Vec::with_capacity(count);
        let mut i: usize = 0;
        while i < count
            invariant
                i <= count,
                count < handle_limit(),
                all@.len() == i,
                forall|j: int| 0 <= j < i ==> (#[trigger] all@[j]).index_spec() == j,
            decreases count - i,
        {
            all.push(DenseVert::from_index(i));
            i += 1;
        }
        proof {
            lemma_keys_enumerate(all@);
            assert forall|v: DenseVert| all@.contains(v) <==> self.vert_set().contains(v) by {
                if self.vert_set().contains(v) {
                    DenseVert::lemma_index_injective(all@[v.index_spec() as int], v);
                }
            }
        }
        all
    }

    fn edges(&self) -> (all: Vec<DenseEdge>) {
        let all = self.tails.keys();
        proof {
            lemma_keys_enumerate(all@);
            assert forall|e: DenseEdge| all@.contains(e) <==> self.edge_set().contains(e) by {
                if self.edge_set().contains(e) {
                    DenseEdge::lemma_index_injective(all@[e.index_spec() as int], e);
                }
            }
        }
        all
    }
}

impl<T: Copy> VertMaps<T> for ImmutableInAdjacencyList {
    type VertMap = DenseMap<DenseVert, T>;

    fn vert_map(&self, default: T) -> (m: Self::VertMap)
        ensures
            m.default_spec() == default,
            forall|v: DenseVert| m.defined(v) && m.at(v) == default,
    {
        DenseMap::with_capacity(default, self.ins.len())
    }

    fn ephemeral_vert_map(&self, default: T) -> (m: Self::VertMap)
        ensures
            m.default_spec() == default,
            forall|v: DenseVert| m.defined(v) && m.at(v) == default,
    {
        DenseMap::with_capacity(default, self.ins.len())
    }
}

impl<T: Copy> EdgeMaps<T> for ImmutableInAdjacencyList {
    type EdgeMap = DenseMap<DenseEdge, T>;

    fn edge_map(&self, default: T) -> (m: Self::EdgeMap)
        ensures
            m.default_spec() == default,
            forall|e: DenseEdge| m.defined(e) && m.at(e) == default,
    {
        DenseMap::with_capacity(default, self.tails.len())
    }

    fn ephemeral_edge_map(&self, default: T) -> (m: Self::EdgeMap)
        ensures
            m.default_spec() == default,
            forall|e: DenseEdge| m.defined(e) && m.at(e) == default,
    {
        DenseMap::with_capacity(default, self.tails.len())
    }
}

impl InGraph for ImmutableInAdjacencyList {
    open spec fn lists_in_edges(&self, v: DenseVert, all: Seq<DenseEdge>) -> bool {
        forall|j: int|
            0 <= j < all.len() ==> (#[trigger] all[j]).index_spec() == all[0].index_spec() + j
    }

    fn in_edges(&self, v: DenseVert) -> (all: Vec<DenseEdge>)
        ensures
            forall|j: int|
                0 <= j < all@.len() ==> (#[trigger] all@[j]).index_spec() == all@[0].index_spec()
                    + j,
    {
        let position: usize = v.index();
        let start: usize = self.ins.index(v).index();
        let end: usize = self.ins.index(DenseVert::from_index(position + 1)).index();
        let mut all: Vec<DenseEdge> = Vec::new();
        let mut k: usize = start;
        while k < end
            invariant
                start <= k <= end,
                end <= self.tails@.len(),
                self.tails@.len() < handle_limit(),
                all@.len() == k - start,
                forall|j: int| 0 <= j < all@.len() ==> (#[trigger] all@[j]).index_spec() == start + j,
            decreases end - k,
        {
            all.push(DenseEdge::from_index(k));
            k += 1;
        }
        proof {
            assert forall|e: DenseEdge| all@.contains(e) <==> in_edge_set(self, v).contains(
                e,
            ) by {
                if all@.contains(e) {
                    let j = choose|j: int| 0 <= j < all@.len() && all@[j] == e;
                    assert(all@[j].index_spec() == start + j);
                    self.lemma_head_index(e.index_spec() as int, position as int);
                    DenseVert::lemma_key_exists(position);
                    DenseVert::lemma_index_injective(self.head_spec(e), v);
                }
                if in_edge_set(self, v).contains(e) {
                    self.lemma_head_exists(e.index_spec() as int);
                    DenseVert::lemma_key_exists(self.head_index(e.index_spec() as int) as usize);
                    assert(self.head_index(e.index_spec() as int) == position);
                    let j = e.index_spec() - start;
                    DenseEdge::lemma_index_injective(all@[j], e);
                }
            }
        }
        all
    }
}

} // verus!
