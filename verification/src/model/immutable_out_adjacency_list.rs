//! Module implementing an immutable out-adjacency list.

use vstd::prelude::*;
use super::dense::{lemma_keys_enumerate, lemma_positions_finite, DenseMap, Domain, Key};
use super::key::{handle_limit, DenseEdge, DenseVert};
use crate::digraph::{Digraph, EdgeMaps, VertMaps};
use crate::homomorphism::{is_isomorphism, Homomorphism};
use crate::map::{MapGet, MapMut, Unwrap};
use crate::out_graph::{out_edge_set, OutGraph};
use crate::seq_facts::{enumerates, lemma_enumerated_len, lemma_seq_within_set};

verus! {

/// Immutable out-adjacency list directed graph representation, built once
/// from a finished graph. The edges are numbered so that the edges that
/// leave one vertex follow each other: `outs` holds for each vertex the
/// first edge that leaves it, and the number of edges at its end; `heads`
/// holds the head of each edge.
#[derive(Debug)]
pub struct ImmutableOutAdjacencyList {
    outs: Domain<DenseVert, DenseEdge>,
    heads: Domain<DenseEdge, DenseVert>,
}

impl ImmutableOutAdjacencyList {
    /// The number of vertices.
    pub closed spec fn order_spec(&self) -> nat {
        (self.outs@.len() - 1) as nat
    }

    /// The number of edges.
    pub closed spec fn size_spec(&self) -> nat {
        self.heads@.len()
    }

    /// Whether the edge at position `k` is among those that leave the vertex
    /// at position `i`.
    spec fn in_run(&self, i: int, k: int) -> bool {
        &&& 0 <= i < self.outs@.len() - 1
        &&& self.outs@[i].index_spec() <= k < self.outs@[i + 1].index_spec()
    }

    /// The position of the vertex that the edge at position `k` leaves.
    spec fn tail_index(&self, k: int) -> int {
        choose|i: int| #[trigger] self.in_run(i, k)
    }

    /// The vertex that the edge `e` leaves.
    spec fn tail_spec(&self, e: DenseEdge) -> DenseVert {
        choose|v: DenseVert| v.index_spec() == self.tail_index(e.index_spec() as int)
    }

    /// An edge leaves the vertex in whose run of edges it lies, and no
    /// other.
    proof fn lemma_tail_index(&self, k: int, i: int)
        requires
            self.wf(),
            0 <= i < self.outs@.len() - 1,
            self.outs@[i].index_spec() <= k < self.outs@[i + 1].index_spec(),
        ensures
            self.tail_index(k) == i,
    {
        let j = self.tail_index(k);
        assert(self.in_run(i, k));
        assert(self.in_run(j, k));
        if j < i {
            assert(self.outs@[j + 1].index_spec() <= self.outs@[i].index_spec());
        }
        if i < j {
            assert(self.outs@[i + 1].index_spec() <= self.outs@[j].index_spec());
        }
    }

    /// Every edge leaves a vertex of the graph.
    proof fn lemma_tail_exists(&self, k: int)
        requires
            self.wf(),
            0 <= k < self.heads@.len(),
        ensures
            0 <= self.tail_index(k) < self.outs@.len() - 1,
            self.outs@[self.tail_index(k)].index_spec() <= k < self.outs@[self.tail_index(k)
                + 1].index_spec(),
    {
        self.lemma_run_exists(k, self.outs@.len() - 1);
        let i = choose|i: int| 0 <= i < self.outs@.len() - 1 && #[trigger] self.in_run(i, k);
        assert(self.in_run(self.tail_index(k), k));
    }

    /// An edge below the first edge of the vertex at `bound` lies in the run
    /// of a vertex before `bound`.
    proof fn lemma_run_exists(&self, k: int, bound: int)
        requires
            self.wf(),
            0 <= bound < self.outs@.len(),
            0 <= k < self.outs@[bound].index_spec(),
        ensures
            exists|i: int| 0 <= i < bound && #[trigger] self.in_run(i, k),
        decreases bound,
    {
        if bound > 0 {
            if self.outs@[bound - 1].index_spec() <= k {
                assert(self.in_run(bound - 1, k));
            } else {
                self.lemma_run_exists(k, bound - 1);
                let i = choose|i: int| 0 <= i < bound - 1 && #[trigger] self.in_run(i, k);
                assert(0 <= i < bound && self.in_run(i, k));
            }
        }
    }

    /// Returns the position of the vertex that the edge `e` leaves: the
    /// number of vertices whose first edge is not after `e`, less one.
    fn tail_position(&self, e: DenseEdge) -> (i: usize)
        requires
            self.wf(),
            e.index_spec() < self.heads@.len(),
        ensures
            i == self.tail_index(e.index_spec() as int),
            i < self.outs@.len() - 1,
    {
        let target: usize = e.index();
        let offsets = self.outs.values();
        let mut low: usize = 0;
        let mut high: usize = offsets.len();
        while low < high
            invariant
                self.wf(),
                offsets@ == self.outs@,
                target == e.index_spec(),
                target < self.heads@.len(),
                low <= high <= offsets@.len(),
                forall|i: int| 0 <= i < low ==> (#[trigger] offsets@[i]).index_spec() <= target,
                forall|i: int|
                    high <= i < offsets@.len() ==> (#[trigger] offsets@[i]).index_spec() > target,
            decreases high - low,
        {
            let middle: usize = low + (high - low) / 2;
            if offsets[middle].index() <= target {
                proof {
                    assert forall|i: int| 0 <= i < middle + 1 implies (
                    #[trigger] offsets@[i]).index_spec() <= target by {
                        if i < middle {
                            assert(offsets@[i].index_spec() <= offsets@[middle as int].index_spec());
                        }
                    }
                }
                low = middle + 1;
            } else {
                proof {
                    assert forall|i: int| middle <= i < offsets@.len() implies (
                    #[trigger] offsets@[i]).index_spec() > target by {
                        if middle < i {
                            assert(offsets@[middle as int].index_spec() <= offsets@[i].index_spec());
                        }
                    }
                }
                high = middle;
            }
        }
        proof {
            assert(offsets@[0].index_spec() == 0);
            assert(offsets@[offsets@.len() - 1].index_spec() == self.heads@.len());
            assert(low >= 1) by {
                if low == 0 {
                    assert(offsets@[0].index_spec() > target);
                }
            }
            assert(low <= offsets@.len() - 1) by {
                if low == offsets@.len() {
                    assert(offsets@[offsets@.len() - 1].index_spec() <= target);
                }
            }
            self.lemma_tail_index(target as int, low - 1);
        }
        low - 1
    }
}

/// What holds while the lists are filled from the graph `from`: the edges
/// `done` of `from` were copied in their order, each leaving the vertex at
/// the position that `owner` gives for it, and the first edges `outs` of the
/// vertices so far lead into the copies in step.
pub open spec fn building<
    G: OutGraph,
    VM: MapGet<G::Vert, Value = Option<DenseVert>>,
    EM: MapGet<G::Edge, Value = Option<DenseEdge>>,
>(
    from: &G,
    verts: Seq<G::Vert>,
    vmap: &VM,
    emap: &EM,
    outs: Seq<DenseEdge>,
    heads: Seq<DenseVert>,
    done: Seq<G::Edge>,
    owner: Seq<int>,
) -> bool {
    &&& outs.len() <= verts.len() + 1
    &&& heads.len() == done.len()
    &&& owner.len() == done.len()
    &&& done.no_duplicates()
    &&& forall|k: int|
        0 <= k < done.len() ==> {
            &&& from.edge_set().contains(#[trigger] done[k])
            &&& emap.at(done[k]) is Some
            &&& emap.at(done[k]).unwrap().index_spec() == k
            &&& vmap.at(from.endpoints_spec(done[k]).1) == Some(heads[k])
            &&& 0 <= owner[k] < outs.len()
            &&& owner[k] < verts.len()
            &&& from.endpoints_spec(done[k]).0 == verts[owner[k]]
            &&& outs[owner[k]].index_spec() <= k
            &&& owner[k] + 1 < outs.len() ==> k < outs[owner[k] + 1].index_spec()
        }
    &&& forall|s: int, t: int|
        0 <= s <= t < outs.len() ==> (#[trigger] outs[s]).index_spec() <= (
        #[trigger] outs[t]).index_spec()
    &&& forall|t: int| 0 <= t < outs.len() ==> (#[trigger] outs[t]).index_spec() <= heads.len()
    &&& outs.len() > 0 ==> outs[0].index_spec() == 0
    &&& forall|k: int| 0 <= k < heads.len() ==> (#[trigger] heads[k]).index_spec() < verts.len()
}

impl ImmutableOutAdjacencyList {
    /// Constructs a graph isomorphic to the given graph and returns it along
    /// with mappings from the given graph's vertices and edges to those in
    /// the new graph. The vertices of the new graph stand in the order in
    /// which `from` lists its vertices.
    pub fn isomorphic_from<G>(from: &G) -> (copy: (
        Self,
        Homomorphism<
            <G as VertMaps<Option<DenseVert>>>::VertMap,
            <G as EdgeMaps<Option<DenseEdge>>>::EdgeMap,
        >,
    )) where G: OutGraph + VertMaps<Option<DenseVert>> + EdgeMaps<Option<DenseEdge>>
        requires
            from.wf(),
            from.vert_set().len() < handle_limit(),
            from.edge_set().len() < handle_limit(),
        ensures
            copy.0.wf(),
            forall|v: G::Vert| from.vert_set().contains(v) ==> copy.1.vert_map_spec().defined(v),
            forall|e: G::Edge| from.edge_set().contains(e) ==> copy.1.edge_map_spec().defined(e),
            is_isomorphism(from, &copy.0, copy.1.vert_map_spec(), copy.1.edge_map_spec()),
    {
        let verts = from.verts();
        proof {
            from.lemma_finite();
            lemma_enumerated_len(verts@, from.vert_set());
        }
        let mut vmap = from.ephemeral_vert_map(None);
        let mut i: usize = 0;
        while i < verts.len()
            invariant
                i <= verts@.len(),
                verts@.len() < handle_limit(),
                verts@.no_duplicates(),
                forall|v: G::Vert| vmap.defined(v),
                forall|t: int|
                    0 <= t < i ==> (#[trigger] vmap.at(verts@[t])) is Some && vmap.at(
                        verts@[t],
                    ).unwrap().index_spec() == t,
            decreases verts@.len() - i,
        {
            let ghost before = vmap;
            *vmap.get_mut(verts[i]) = Some(DenseVert::from_index(i));
            proof {
                assert forall|t: int| 0 <= t < i + 1 implies (#[trigger] vmap.at(verts@[t])) is Some
                    && vmap.at(verts@[t]).unwrap().index_spec() == t by {
                    if t < i {
                        assert(verts@[t] != verts@[i as int]);
                        assert(before.at(verts@[t]) is Some);
                    }
                }
            }
            i += 1;
        }
        let mut emap = from.ephemeral_edge_map(None);
        let mut outs: Domain<DenseVert, DenseEdge> = Domain::default();
        let mut heads: Domain<DenseEdge, DenseVert> = Domain::default();
        let ghost mut done: Seq<G::Edge> = Seq::empty();
        let ghost mut owner: Seq<int> = Seq::empty();
        let mut i: usize = 0;
        while i < verts.len()
            invariant
                i <= verts@.len(),
                from.wf(),
                from.edge_set().finite(),
                from.edge_set().len() < handle_limit(),
                verts@.len() < handle_limit(),
                enumerates(verts@, from.vert_set()),
                forall|v: G::Vert| vmap.defined(v),
                forall|e: G::Edge| emap.defined(e),
                forall|t: int|
                    0 <= t < verts@.len() ==> (#[trigger] vmap.at(verts@[t])) is Some && vmap.at(
                        verts@[t],
                    ).unwrap().index_spec() == t,
                outs@.len() == i,
                building(from, verts@, &vmap, &emap, outs@, heads@, done, owner),
                forall|e: G::Edge, t: int|
                    from.edge_set().contains(e) && 0 <= t < i && from.endpoints_spec(e).0
                        == #[trigger] verts@[t] ==> #[trigger] done.contains(e),
            decreases verts@.len() - i,
        {
            let near = verts[i];
            proof {
                lemma_seq_within_set(done, from.edge_set());
                assert(verts@.contains(near));
            }
            let ghost outs_before = outs@;
            outs.insert(DenseEdge::from_index(heads.len()));
            let adjacent = from.out_edges(near);
            proof {
                assert forall|k: int| 0 <= k < done.len() implies {
                    &&& from.edge_set().contains(#[trigger] done[k])
                    &&& emap.at(done[k]) is Some
                    &&& emap.at(done[k]).unwrap().index_spec() == k
                    &&& vmap.at(from.endpoints_spec(done[k]).1) == Some(heads@[k])
                    &&& 0 <= owner[k] < outs@.len()
                    &&& owner[k] < verts@.len()
                    &&& from.endpoints_spec(done[k]).0 == verts@[owner[k]]
                    &&& outs@[owner[k]].index_spec() <= k
                    &&& owner[k] + 1 < outs@.len() ==> k < outs@[owner[k] + 1].index_spec()
                } by {
                    assert(from.edge_set().contains(done[k]));
                    assert(outs@[owner[k]] == outs_before[owner[k]]);
                    if owner[k] + 1 < outs_before.len() {
                        assert(outs@[owner[k] + 1] == outs_before[owner[k] + 1]);
                    }
                }
                if i == 0 {
                    if done.len() > 0 {
                        assert(from.edge_set().contains(done[0]));
                    }
                } else {
                    assert(outs@[0] == outs_before[0]);
                }
                assert forall|t: int| 0 <= t < outs@.len() implies (
                #[trigger] outs@[t]).index_spec() <= heads@.len() by {
                    if t < i {
                        assert(outs@[t] == outs_before[t]);
                    }
                }
                assert forall|s: int, t: int| 0 <= s <= t < outs@.len() implies (
                #[trigger] outs@[s]).index_spec() <= (#[trigger] outs@[t]).index_spec() by {
                    if t < i {
                        assert(outs@[s] == outs_before[s]);
                        assert(outs@[t] == outs_before[t]);
                    } else if s < i {
                        assert(outs@[s] == outs_before[s]);
                        assert(outs_before[s].index_spec() <= heads@.len());
                    }
                }
                assert(building(from, verts@, &vmap, &emap, outs@, heads@, done, owner));
            }
            let ghost base = done.len();
            let mut j: usize = 0;
            while j < adjacent.len()
                invariant
                    j <= adjacent@.len(),
                    i < verts@.len(),
                    near == verts@[i as int],
                    from.wf(),
                    from.edge_set().finite(),
                    from.edge_set().len() < handle_limit(),
                    verts@.len() < handle_limit(),
                    enumerates(verts@, from.vert_set()),
                    enumerates(adjacent@, out_edge_set(from, near)),
                    forall|v: G::Vert| vmap.defined(v),
                    forall|e: G::Edge| emap.defined(e),
                    forall|t: int|
                        0 <= t < verts@.len() ==> (#[trigger] vmap.at(verts@[t])) is Some && vmap.at(
                            verts@[t],
                        ).unwrap().index_spec() == t,
                    outs@.len() == i + 1,
                    outs@[i as int].index_spec() == base,
                    done.len() == base + j,
                    forall|a: int| 0 <= a < j ==> done[base + a] == #[trigger] adjacent@[a],
                    forall|k: int| 0 <= k < base ==> from.endpoints_spec(#[trigger] done[k]).0 != near,
                    building(from, verts@, &vmap, &emap, outs@, heads@, done, owner),
                    forall|e: G::Edge, t: int|
                        from.edge_set().contains(e) && 0 <= t < i && from.endpoints_spec(e).0
                            == #[trigger] verts@[t] ==> #[trigger] done.contains(e),
                decreases adjacent@.len() - j,
            {
                let e = adjacent[j];
                proof {
                    assert(adjacent@.contains(e));
                    assert(out_edge_set(from, near).contains(e));
                    from.lemma_endpoints_are_verts(e);
                    lemma_seq_within_set(done, from.edge_set());
                    let h = from.endpoints_spec(e).1;
                    assert(verts@.contains(h));
                    let t = choose|t: int| 0 <= t < verts@.len() && verts@[t] == h;
                    assert(vmap.at(verts@[t]) is Some);
                    assert(!done.contains(e)) by {
                        if done.contains(e) {
                            let k = choose|k: int| 0 <= k < done.len() && done[k] == e;
                            if k < base {
                                assert(from.endpoints_spec(done[k]).0 != near);
                            } else {
                                assert(done[base + (k - base)] == adjacent@[k - base]);
                                assert(adjacent@[k - base] == adjacent@[j as int]);
                            }
                        }
                    }
                }
                let far = from.head(e);
                let image = DenseEdge::from_index(heads.len());
                let ghost emap_before = emap;
                *emap.get_mut(e) = Some(image);
                let far_image = match *vmap.get(far) {
                    Some(far_image) => far_image,
                    None => vstd::pervasive::unreached(),
                };
                let ghost heads_before = heads@;
                heads.insert(far_image);
                proof {
                    let longer = done.push(e);
                    let owners = owner.push(i as int);
                    let h = from.endpoints_spec(e).1;
                    let t = choose|t: int| 0 <= t < verts@.len() && verts@[t] == h;
                    assert(vmap.at(verts@[t]).unwrap().index_spec() == t);
                    assert forall|a: int, b: int|
                        0 <= a < longer.len() && 0 <= b < longer.len() && a != b implies longer[a]
                        != longer[b] by {
                        if a < done.len() {
                            assert(done.contains(done[a]));
                        }
                        if b < done.len() {
                            assert(done.contains(done[b]));
                        }
                    }
                    assert forall|k: int| 0 <= k < longer.len() implies {
                        &&& from.edge_set().contains(#[trigger] longer[k])
                        &&& emap.at(longer[k]) is Some
                        &&& emap.at(longer[k]).unwrap().index_spec() == k
                        &&& vmap.at(from.endpoints_spec(longer[k]).1) == Some(heads@[k])
                        &&& 0 <= owners[k] < outs@.len()
                        &&& owners[k] < verts@.len()
                        &&& from.endpoints_spec(longer[k]).0 == verts@[owners[k]]
                        &&& outs@[owners[k]].index_spec() <= k
                        &&& owners[k] + 1 < outs@.len() ==> k < outs@[owners[k] + 1].index_spec()
                    } by {
                        if k < done.len() {
                            assert(done.contains(done[k]));
                            assert(from.edge_set().contains(done[k]));
                            assert(emap.at(done[k]) == emap_before.at(done[k]));
                            assert(heads@[k] == heads_before[k]);
                        }
                    }
                    assert forall|k: int| 0 <= k < heads@.len() implies (
                    #[trigger] heads@[k]).index_spec() < verts@.len() by {
                        if k < heads_before.len() {
                            assert(heads@[k] == heads_before[k]);
                        }
                    }
                    assert forall|a: int| 0 <= a < j + 1 implies longer[base + a]
                        == #[trigger] adjacent@[a] by {
                        if a < j {
                            assert(done[base + a] == adjacent@[a]);
                        }
                    }
                    assert forall|k: int| 0 <= k < base implies from.endpoints_spec(
                        #[trigger] longer[k],
                    ).0 != near by {
                        assert(longer[k] == done[k]);
                    }
                    assert forall|d: G::Edge, t: int|
                        from.edge_set().contains(d) && 0 <= t < i && from.endpoints_spec(d).0
                            == #[trigger] verts@[t] implies #[trigger] longer.contains(d) by {
                        assert(done.contains(d));
                        let k = choose|k: int| 0 <= k < done.len() && done[k] == d;
                        assert(longer[k] == d);
                    }
                    done = longer;
                    owner = owners;
                }
                j += 1;
            }
            proof {
                assert forall|e: G::Edge, t: int|
                    from.edge_set().contains(e) && 0 <= t < i + 1 && from.endpoints_spec(e).0
                        == #[trigger] verts@[t] implies #[trigger] done.contains(e) by {
                    if t == i {
                        assert(out_edge_set(from, near).contains(e));
                        assert(adjacent@.contains(e));
                        let a = choose|a: int| 0 <= a < adjacent@.len() && adjacent@[a] == e;
                        assert(done[base + a] == adjacent@[a]);
                    }
                }
            }
            i += 1;
        }
        proof {
            lemma_seq_within_set(done, from.edge_set());
        }
        let ghost outs_before = outs@;
        outs.insert(DenseEdge::from_index(heads.len()));
        let g = ImmutableOutAdjacencyList { outs, heads };
        let vert_map = Unwrap::new(vmap);
        let edge_map = Unwrap::new(emap);
        proof {
            let n = verts@.len() as int;
            assert forall|s: int, t: int| 0 <= s <= t < g.outs@.len() implies (
            #[trigger] g.outs@[s]).index_spec() <= (#[trigger] g.outs@[t]).index_spec() by {
                if t < n {
                    assert(g.outs@[s] == outs_before[s]);
                    assert(g.outs@[t] == outs_before[t]);
                } else if s < n {
                    assert(g.outs@[s] == outs_before[s]);
                    assert(outs_before[s].index_spec() <= g.heads@.len());
                }
            }
            if n > 0 {
                assert(g.outs@[0] == outs_before[0]);
            } else {
                if done.len() > 0 {
                    assert(from.edge_set().contains(done[0]));
                }
            }
            assert(g.outs@[g.outs@.len() - 1].index_spec() == g.heads@.len());
            assert forall|k: int| 0 <= k < g.heads@.len() implies (
            #[trigger] g.heads@[k]).index_spec() < g.outs@.len() - 1 by {}
            assert(g.wf());
            assert forall|k: int| 0 <= k < done.len() implies g.in_run(owner[k], k) by {
                assert(from.edge_set().contains(done[k]));
                assert(g.outs@[owner[k]] == outs_before[owner[k]]);
                if owner[k] + 1 < n {
                    assert(g.outs@[owner[k] + 1] == outs_before[owner[k] + 1]);
                }
            }
            assert forall|v: G::Vert| from.vert_set().contains(v) implies vert_map.defined(v)
                && g.vert_set().contains(#[trigger] vert_map.at(v)) by {
                assert(verts@.contains(v));
                let t = choose|t: int| 0 <= t < verts@.len() && verts@[t] == v;
                assert(vmap.at(verts@[t]) is Some);
            }
            assert forall|a: G::Vert, b: G::Vert|
                from.vert_set().contains(a) && from.vert_set().contains(b) && #[trigger] vert_map.at(
                    a,
                ) == #[trigger] vert_map.at(b) implies a == b by {
                assert(verts@.contains(a));
                assert(verts@.contains(b));
                let s = choose|s: int| 0 <= s < verts@.len() && verts@[s] == a;
                let t = choose|t: int| 0 <= t < verts@.len() && verts@[t] == b;
                assert(vmap.at(verts@[s]).unwrap().index_spec() == s);
                assert(vmap.at(verts@[t]).unwrap().index_spec() == t);
            }
            assert forall|w: DenseVert| g.vert_set().contains(w) implies exists|v: G::Vert|
                from.vert_set().contains(v) && #[trigger] vert_map.at(v) == w by {
                let t = w.index_spec() as int;
                assert(vmap.at(verts@[t]).unwrap().index_spec() == t);
                DenseVert::lemma_index_injective(vmap.at(verts@[t]).unwrap(), w);
                assert(verts@.contains(verts@[t]));
                assert(from.vert_set().contains(verts@[t]) && vert_map.at(verts@[t]) == w);
            }
            assert forall|e: G::Edge| from.edge_set().contains(e) implies done.contains(e) by {
                from.lemma_endpoints_are_verts(e);
                assert(verts@.contains(from.endpoints_spec(e).0));
                let t = choose|t: int|
                    0 <= t < verts@.len() && verts@[t] == from.endpoints_spec(e).0;
                assert(from.endpoints_spec(e).0 == verts@[t]);
            }
            assert forall|e: G::Edge| from.edge_set().contains(e) implies edge_map.defined(e) by {
                assert(done.contains(e));
                let k = choose|k: int| 0 <= k < done.len() && done[k] == e;
                assert(from.edge_set().contains(done[k]));
            }
            assert forall|v: G::Vert| from.vert_set().contains(v) implies vert_map.defined(v) by {
                assert(verts@.contains(v));
                let t = choose|t: int| 0 <= t < verts@.len() && verts@[t] == v;
                assert(vmap.at(verts@[t]) is Some);
            }
            assert forall|e: G::Edge| from.edge_set().contains(e) implies edge_map.defined(e)
                && g.edge_set().contains(edge_map.at(e)) && g.endpoints_spec(
                #[trigger] edge_map.at(e),
            ) == (
                vert_map.at(from.endpoints_spec(e).0),
                vert_map.at(from.endpoints_spec(e).1),
            ) by {
                assert(done.contains(e));
                let k = choose|k: int| 0 <= k < done.len() && done[k] == e;
                assert(from.edge_set().contains(done[k]));
                let image = emap.at(e).unwrap();
                assert(image.index_spec() == k);
                assert(g.in_run(owner[k], k));
                g.lemma_tail_index(k, owner[k]);
                let near_image = vmap.at(verts@[owner[k]]).unwrap();
                assert(near_image.index_spec() == owner[k]);
                DenseVert::lemma_index_injective(g.tail_spec(image), near_image);
            }
            assert forall|a: G::Edge, b: G::Edge|
                from.edge_set().contains(a) && from.edge_set().contains(b) && #[trigger] edge_map.at(
                    a,
                ) == #[trigger] edge_map.at(b) implies a == b by {
                assert(done.contains(a));
                assert(done.contains(b));
                let s = choose|s: int| 0 <= s < done.len() && done[s] == a;
                let t = choose|t: int| 0 <= t < done.len() && done[t] == b;
                assert(emap.at(done[s]).unwrap().index_spec() == s);
                assert(emap.at(done[t]).unwrap().index_spec() == t);
            }
            assert forall|w: DenseEdge| g.edge_set().contains(w) implies exists|e: G::Edge|
                from.edge_set().contains(e) && #[trigger] edge_map.at(e) == w by {
                let k = w.index_spec() as int;
                assert(from.edge_set().contains(done[k]));
                DenseEdge::lemma_index_injective(emap.at(done[k]).unwrap(), w);
                assert(from.edge_set().contains(done[k]) && edge_map.at(done[k]) == w);
            }
        }
        (g, Homomorphism::new(vert_map, edge_map))
    }

    /// Constructs a graph isomorphic to the given graph.
    pub fn from_graph<G>(from: &G) -> (copy: Self) where
        G: OutGraph + VertMaps<Option<DenseVert>> + EdgeMaps<Option<DenseEdge>>,

        requires
            from.wf(),
            from.vert_set().len() < handle_limit(),
            from.edge_set().len() < handle_limit(),
        ensures
            copy.wf(),
            exists|
                vert_map: Unwrap<<G as VertMaps<Option<DenseVert>>>::VertMap>,
                edge_map: Unwrap<<G as EdgeMaps<Option<DenseEdge>>>::EdgeMap>,
            | #[trigger] is_isomorphism(from, &copy, &vert_map, &edge_map),
    {
        let (copy, maps) = Self::isomorphic_from(from);
        proof {
            assert(is_isomorphism(from, &copy, maps.vert_map_spec(), maps.edge_map_spec()));
        }
        copy
    }
}

impl Digraph for ImmutableOutAdjacencyList {
    type Vert = DenseVert;

    type Edge = DenseEdge;

    open spec fn lists_verts(&self, all: Seq<DenseVert>) -> bool {
        &&& all.len() == self.order_spec()
        &&& forall|i: int| 0 <= i < all.len() ==> (#[trigger] all[i]).index_spec() == i
    }

    open spec fn lists_edges(&self, all: Seq<DenseEdge>) -> bool {
        &&& all.len() == self.size_spec()
        &&& forall|i: int| 0 <= i < all.len() ==> (#[trigger] all[i]).index_spec() == i
    }

    closed spec fn wf(&self) -> bool {
        &&& 1 <= self.outs@.len() <= handle_limit()
        &&& self.heads@.len() < handle_limit()
        &&& self.outs@[0].index_spec() == 0
        &&& self.outs@[self.outs@.len() - 1].index_spec() == self.heads@.len()
        &&& forall|i: int, j: int|
            0 <= i <= j < self.outs@.len() ==> (#[trigger] self.outs@[i]).index_spec() <= (
            #[trigger] self.outs@[j]).index_spec()
        &&& forall|k: int|
            0 <= k < self.heads@.len() ==> (#[trigger] self.heads@[k]).index_spec()
                < self.outs@.len() - 1
    }

    open spec fn vert_set(&self) -> Set<DenseVert> {
        Set::new(|v: DenseVert| v.index_spec() < self.order_spec())
    }

    open spec fn edge_set(&self) -> Set<DenseEdge> {
        Set::new(|e: DenseEdge| e.index_spec() < self.size_spec())
    }

    closed spec fn endpoints_spec(&self, e: DenseEdge) -> (DenseVert, DenseVert) {
        (self.tail_spec(e), self.heads@[e.index_spec() as int])
    }

    proof fn lemma_finite(&self) {
        lemma_positions_finite::<DenseVert>((self.outs@.len() - 1) as nat);
        assert(self.vert_set() =~= Set::new(
            |k: DenseVert| k.index_spec() < (self.outs@.len() - 1) as nat,
        ));
        lemma_positions_finite::<DenseEdge>(self.heads@.len());
        assert(self.edge_set() =~= Set::new(|k: DenseEdge| k.index_spec() < self.heads@.len()));
    }

    proof fn lemma_endpoints_are_verts(&self, e: DenseEdge) {
        self.lemma_tail_exists(e.index_spec() as int);
        DenseVert::lemma_key_exists(self.tail_index(e.index_spec() as int) as usize);
    }

    fn same_vert(a: DenseVert, b: DenseVert) -> (same: bool) {
        a == b
    }

    fn same_edge(a: DenseEdge, b: DenseEdge) -> (same: bool) {
        a == b
    }

    fn endpoints(&self, e: DenseEdge) -> (ends: (DenseVert, DenseVert)) {
        (self.tail(e), self.head(e))
    }

    fn tail(&self, e: DenseEdge) -> (v: DenseVert) {
        let v = DenseVert::from_index(self.tail_position(e));
        proof {
            DenseVert::lemma_index_injective(v, self.tail_spec(e));
        }
        v
    }

    fn head(&self, e: DenseEdge) -> (v: DenseVert) {
        *self.heads.index(e)
    }

    fn verts(&self) -> (all: Vec<DenseVert>) {
        let count: usize = self.outs.len() - 1;
        let mut all: Vec<DenseVert> = Vec::with_capacity(count);
        let mut i: usize = 0;
        while i < count
            invariant
                i <= count,
                count < handle_limit(),
                all@.len() == i,
                forall|j: int| 0 <= j < i ==> (#[trigger] all@[j]).index_spec() == j,
            decreases count - i,
        {
            all.push(DenseVert::from_index(i));
            i += 1;
        }
        proof {
            lemma_keys_enumerate(all@);
            assert forall|v: DenseVert| all@.contains(v) <==> self.vert_set().contains(v) by {
                if self.vert_set().contains(v) {
                    DenseVert::lemma_index_injective(all@[v.index_spec() as int], v);
                }
            }
        }
        all
    }

    fn edges(&self) -> (all: Vec<DenseEdge>) {
        let all = self.heads.keys();
        proof {
            lemma_keys_enumerate(all@);
            assert forall|e: DenseEdge| all@.contains(e) <==> self.edge_set().contains(e) by {
                if self.edge_set().contains(e) {
                    DenseEdge::lemma_index_injective(all@[e.index_spec() as int], e);
                }
            }
        }
        all
    }
}

impl<T: Copy> VertMaps<T> for ImmutableOutAdjacencyList {
    type VertMap = DenseMap<DenseVert, T>;

    fn vert_map(&self, default: T) -> (m: Self::VertMap)
        ensures
            m.default_spec() == default,
            forall|v: DenseVert| m.defined(v) && m.at(v) == default,
    {
        DenseMap::with_capacity(default, self.outs.len())
    }

    fn ephemeral_vert_map(&self, default: T) -> (m: Self::VertMap)
        ensures
            m.default_spec() == default,
            forall|v: DenseVert| m.defined(v) && m.at(v) == default,
    {
        DenseMap::with_capacity(default, self.outs.len())
    }
}

impl<T: Copy> EdgeMaps<T> for ImmutableOutAdjacencyList {
    type EdgeMap = DenseMap<DenseEdge, T>;

    fn edge_map(&self, default: T) -> (m: Self::EdgeMap)
        ensures
            m.default_spec() == default,
            forall|e: DenseEdge| m.defined(e) && m.at(e) == default,
    {
        DenseMap::with_capacity(default, self.heads.len())
    }

    fn ephemeral_edge_map(&self, default: T) -> (m: Self::EdgeMap)
        ensures
            m.default_spec() == default,
            forall|e: DenseEdge| m.defined(e) && m.at(e) == default,
    {
        DenseMap::with_capacity(default, self.heads.len())
    }
}

impl OutGraph for ImmutableOutAdjacencyList {
    open spec fn lists_out_edges(&self, v: DenseVert, all: Seq<DenseEdge>) -> bool {
        forall|j: int|
            0 <= j < all.len() ==> (#[trigger] all[j]).index_spec() == all[0].index_spec() + j
    }

    fn out_edges(&self, v: DenseVert) -> (all: Vec<DenseEdge>)
        ensures
            forall|j: int|
                0 <= j < all@.len() ==> (#[trigger] all@[j]).index_spec() == all@[0].index_spec()
                    + j,
    {
        let position: usize = v.index();
        let start: usize = self.outs.index(v).index();
        let end: usize = self.outs.index(DenseVert::from_index(position + 1)).index();
        let mut all: Vec<DenseEdge> = Vec::new();
        let mut k: usize = start;
        while k < end
            invariant
                start <= k <= end,
                end <= self.heads@.len(),
                self.heads@.len() < handle_limit(),
                all@.len() == k - start,
                forall|j: int| 0 <= j < all@.len() ==> (#[trigger] all@[j]).index_spec() == start + j,
            decreases end - k,
        {
            all.push(DenseEdge::from_index(k));
            k += 1;
        }
        proof {
            assert forall|e: DenseEdge| all@.contains(e) <==> out_edge_set(self, v).contains(
                e,
            ) by {
                if all@.contains(e) {
                    let j = choose|j: int| 0 <= j < all@.len() && all@[j] == e;
                    assert(all@[j].index_spec() == start + j);
                    self.lemma_tail_index(e.index_spec() as int, position as int);
                    DenseVert::lemma_key_exists(position);
                    DenseVert::lemma_index_injective(self.tail_spec(e), v);
                }
                if out_edge_set(self, v).contains(e) {
                    self.lemma_tail_exists(e.index_spec() as int);
                    DenseVert::lemma_key_exists(self.tail_index(e.index_spec() as int) as usize);
                    assert(self.tail_index(e.index_spec() as int) == position);
                    let j = e.index_spec() - start;
                    DenseEdge::lemma_index_injective(all@[j], e);
                }
            }
        }
        all
    }
}

} // verus!
