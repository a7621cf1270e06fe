//! Mappings between two graphs that keep the endpoints of the edges.

use vstd::prelude::*;
use crate::digraph::{Digraph, EdgeMaps, VertMaps};
use crate::map::{MapGet, MapMut, Unwrap};
use crate::seq_facts::{enumerates, lemma_enumerated_len, lemma_seq_fills_set};

verus! {

/// Whether `map` pairs the items of `from` with the items of `to`, one to
/// one: it leads from `from` into `to`, no two items of `from` share an
/// image, and every item of `to` is an image.
pub open spec fn pairs_up<K, W, F: MapGet<K, Value = W>>(map: &F, from: Set<K>, to: Set<W>) -> bool {
    &&& forall|k: K| from.contains(k) ==> to.contains(#[trigger] map.at(k))
    &&& forall|j: K, k: K|
        from.contains(j) && from.contains(k) && #[trigger] map.at(j) == #[trigger] map.at(k) ==> j
            == k
    &&& forall|w: W| to.contains(w) ==> exists|k: K| from.contains(k) && #[trigger] map.at(k) == w
}

/// Whether the mappings `vert_map` and `edge_map` make `h` a copy of `g`:
/// they pair up the vertices and the edges of the two graphs, and the
/// endpoints of a mapped edge are the mapped endpoints of the edge.
pub open spec fn is_isomorphism<
    G: Digraph,
    H: Digraph,
    VM: MapGet<G::Vert, Value = H::Vert>,
    EM: MapGet<G::Edge, Value = H::Edge>,
>(g: &G, h: &H, vert_map: &VM, edge_map: &EM) -> bool {
    &&& pairs_up(vert_map, g.vert_set(), h.vert_set())
    &&& pairs_up(edge_map, g.edge_set(), h.edge_set())
    &&& forall|e: G::Edge|
        g.edge_set().contains(e) ==> h.endpoints_spec(#[trigger] edge_map.at(e)) == (
            vert_map.at(g.endpoints_spec(e).0),
            vert_map.at(g.endpoints_spec(e).1),
        )
}

/// Returns whether `map` pairs the items of `from` with the items of `to`,
/// one to one. `seen` is used to mark the images.
fn pairs_up_exec<K: Copy, W: Copy, F: MapGet<K, Value = W>, S: MapMut<W, Value = bool>>(
    map: &F,
    from: &Vec<K>,
    to: &Vec<W>,
    seen: S,
    Ghost(from_set): Ghost<Set<K>>,
    Ghost(to_set): Ghost<Set<W>>,
) -> (paired: bool)
    requires
        enumerates(from@, from_set),
        enumerates(to@, to_set),
        forall|k: K| from_set.contains(k) ==> map.defined(k),
        forall|w: W| seen.defined(w) && !seen.at(w),
    ensures
        paired == pairs_up(map, from_set, to_set),
{
    let mut seen = seen;
    let mut i: usize = 0;
    while i < from.len()
        invariant
            i <= from@.len(),
            enumerates(from@, from_set),
            forall|k: K| from_set.contains(k) ==> map.defined(k),
            forall|w: W| seen.defined(w),
            forall|w: W|
                #[trigger] seen.at(w) <==> exists|j: int|
                    0 <= j < i && #[trigger] map.at(from@[j]) == w,
            forall|j: int, k: int|
                0 <= j < k < i ==> #[trigger] map.at(from@[j]) != #[trigger] map.at(from@[k]),
        decreases from@.len() - i,
    {
        let k = from[i];
        assert(from@.contains(k));
        let w = *map.get(k);
        if *seen.get(w) {
            proof {
                let j = choose|j: int| 0 <= j < i && #[trigger] map.at(from@[j]) == w;
                assert(from@.contains(from@[j]));
                assert(from@[j] != from@[i as int]);
            }
            return false;
        }
        let ghost before = seen;
        *seen.get_mut(w) = true;
        proof {
            assert forall|x: W|
                #[trigger] seen.at(x) <==> exists|j: int|
                    0 <= j < i + 1 && #[trigger] map.at(from@[j]) == x by {
                if x == w {
                    assert(map.at(from@[i as int]) == x);
                } else {
                    assert(seen.at(x) == before.at(x));
                    if before.at(x) {
                        let j = choose|j: int| 0 <= j < i && #[trigger] map.at(from@[j]) == x;
                        assert(0 <= j < i + 1 && map.at(from@[j]) == x);
                    }
                    if exists|j: int| 0 <= j < i + 1 && #[trigger] map.at(from@[j]) == x {
                        let j = choose|j: int| 0 <= j < i + 1 && #[trigger] map.at(from@[j]) == x;
                        assert(j < i);
                    }
                }
            }
        }
        i += 1;
    }
    let mut j: usize = 0;
    while j < to.len()
        invariant
            j <= to@.len(),
            i == from@.len(),
            forall|w: W| seen.defined(w),
            forall|w: W|
                #[trigger] seen.at(w) <==> exists|j: int|
                    0 <= j < i && #[trigger] map.at(from@[j]) == w,
            enumerates(from@, from_set),
            enumerates(to@, to_set),
            forall|n: int| 0 <= n < j ==> seen.at(#[trigger] to@[n]),
        decreases to@.len() - j,
    {
        let w = to[j];
        if !*seen.get(w) {
            proof {
                assert(to@.contains(w));
                if pairs_up(map, from_set, to_set) {
                    let k = choose|k: K| from_set.contains(k) && #[trigger] map.at(k) == w;
                    assert(from@.contains(k));
                    let n = choose|n: int| 0 <= n < from@.len() && from@[n] == k;
                    assert(map.at(from@[n]) == w);
                }
            }
            return false;
        }
        j += 1;
    }
    proof {
        let images = Seq::new(from@.len(), |n: int| map.at(from@[n]));
        let image_set = images.to_set();
        assert(images.no_duplicates());
        assert forall|w: W| to_set.contains(w) implies image_set.contains(w) by {
            assert(to@.contains(w));
            let n = choose|n: int| 0 <= n < to@.len() && to@[n] == w;
            assert(seen.at(to@[n]));
            let m = choose|m: int| 0 <= m < i && #[trigger] map.at(from@[m]) == w;
            assert(images[m] == w);
        }
        lemma_enumerated_len(images, image_set);
        lemma_enumerated_len(to@, to_set);
        if from@.len() == to@.len() {
            assert forall|n: int| 0 <= n < to@.len() implies image_set.contains(
                #[trigger] to@[n],
            ) by {
                assert(to@.contains(to@[n]));
            }
            lemma_seq_fills_set(to@, image_set);
            assert forall|k: K| from_set.contains(k) implies to_set.contains(
                #[trigger] map.at(k),
            ) by {
                assert(from@.contains(k));
                let n = choose|n: int| 0 <= n < from@.len() && from@[n] == k;
                assert(images[n] == map.at(k));
                assert(image_set.contains(map.at(k)));
                assert(to@.contains(map.at(k)));
            }
            assert forall|a: K, b: K|
                from_set.contains(a) && from_set.contains(b) && #[trigger] map.at(a)
                    == #[trigger] map.at(b) implies a == b by {
                assert(from@.contains(a));
                assert(from@.contains(b));
                let n = choose|n: int| 0 <= n < from@.len() && from@[n] == a;
                let m = choose|m: int| 0 <= m < from@.len() && from@[m] == b;
                if n < m {
                    assert(map.at(from@[n]) != map.at(from@[m]));
                }
                if m < n {
                    assert(map.at(from@[m]) != map.at(from@[n]));
                }
            }
            assert forall|w: W| to_set.contains(w) implies exists|k: K|
                from_set.contains(k) && #[trigger] map.at(k) == w by {
                assert(image_set.contains(w));
                let n = choose|n: int| 0 <= n < images.len() && images[n] == w;
                assert(from@.contains(from@[n]));
                assert(from_set.contains(from@[n]) && map.at(from@[n]) == w);
            }
        } else {
            if pairs_up(map, from_set, to_set) {
                assert forall|w: W| images.contains(w) <==> to_set.contains(w) by {
                    if images.contains(w) {
                        let n = choose|n: int| 0 <= n < images.len() && images[n] == w;
                        assert(from@.contains(from@[n]));
                        assert(to_set.contains(map.at(from@[n])));
                    }
                    if to_set.contains(w) {
                        assert(image_set.contains(w));
                    }
                }
                lemma_enumerated_len(images, to_set);
            }
        }
    }
    from.len() == to.len()
}

/// The check whether a graph is a copy of another.
pub trait Isomorphic: Digraph + Sized {
    /// Returns whether a given graph is isomorphic to this graph with given
    /// vertex and edge mappings.
    fn is_isomorphic_with_maps<H, VM, EM>(&self, g: &H, vert_map: &VM, edge_map: &EM) -> (same: bool) where
        H: VertMaps<bool> + EdgeMaps<bool>,
        VM: MapGet<Self::Vert, Value = H::Vert>,
        EM: MapGet<Self::Edge, Value = H::Edge>,

        requires
            self.wf(),
            g.wf(),
            forall|v: Self::Vert| self.vert_set().contains(v) ==> vert_map.defined(v),
            forall|e: Self::Edge| self.edge_set().contains(e) ==> edge_map.defined(e),
        ensures
            same == is_isomorphism(self, g, vert_map, edge_map),
    ;
}

impl<G: Digraph> Isomorphic for G {
    fn is_isomorphic_with_maps<H, VM, EM>(&self, g: &H, vert_map: &VM, edge_map: &EM) -> (same: bool) where
        H: VertMaps<bool> + EdgeMaps<bool>,
        VM: MapGet<Self::Vert, Value = H::Vert>,
        EM: MapGet<Self::Edge, Value = H::Edge>,
     {
        let verts = self.verts();
        let images = g.verts();
        if !pairs_up_exec(
            vert_map,
            &verts,
            &images,
            g.ephemeral_vert_map(false),
            Ghost(self.vert_set()),
            Ghost(g.vert_set()),
        ) {
            return false;
        }
        let edges = self.edges();
        let images = g.edges();
        if !pairs_up_exec(
            edge_map,
            &edges,
            &images,
            g.ephemeral_edge_map(false),
            Ghost(self.edge_set()),
            Ghost(g.edge_set()),
        ) {
            return false;
        }
        let mut i: usize = 0;
        while i < edges.len()
            invariant
                i <= edges@.len(),
                self.wf(),
                g.wf(),
                enumerates(edges@, self.edge_set()),
                pairs_up(vert_map, self.vert_set(), g.vert_set()),
                pairs_up(edge_map, self.edge_set(), g.edge_set()),
                forall|v: Self::Vert| self.vert_set().contains(v) ==> vert_map.defined(v),
                forall|e: Self::Edge| self.edge_set().contains(e) ==> edge_map.defined(e),
                forall|j: int|
                    0 <= j < i ==> g.endpoints_spec(#[trigger] edge_map.at(edges@[j])) == (
                        vert_map.at(self.endpoints_spec(edges@[j]).0),
                        vert_map.at(self.endpoints_spec(edges@[j]).1),
                    ),
            decreases edges@.len() - i,
        {
            let e = edges[i];
            proof {
                assert(edges@.contains(e));
                self.lemma_endpoints_are_verts(e);
            }
            let (tail, head) = self.endpoints(e);
            let (image_tail, image_head) = g.endpoints(*edge_map.get(e));
            if !H::same_vert(*vert_map.get(tail), image_tail) || !H::same_vert(
                *vert_map.get(head),
                image_head,
            ) {
                return false;
            }
            i += 1;
        }
        proof {
            assert forall|e: Self::Edge| self.edge_set().contains(e) implies g.endpoints_spec(
                #[trigger] edge_map.at(e),
            ) == (
                vert_map.at(self.endpoints_spec(e).0),
                vert_map.at(self.endpoints_spec(e).1),
            ) by {
                assert(edges@.contains(e));
                let j = choose|j: int| 0 <= j < edges@.len() && edges@[j] == e;
                assert(g.endpoints_spec(edge_map.at(edges@[j])) == (
                    vert_map.at(self.endpoints_spec(edges@[j]).0),
                    vert_map.at(self.endpoints_spec(edges@[j]).1),
                ));
            }
        }
        true
    }
}

/// Represents a homomorphism between two graphs. A homomorphism is a mapping
/// from vertices of one graph to vertices of the other and a mapping from
/// edges to edges such that these mappings commute. That is, the head and
/// tail of a mapped edge are the mapped head and tail of the edge that it
/// is mapped from.
pub struct Homomorphism<VM, EM> {
    vert_map: Unwrap<VM>,
    edge_map: Unwrap<EM>,
}

impl<VM, EM> Homomorphism<VM, EM> {
    /// The mapping from vertices of one graph to vertices of another.
    pub closed spec fn vert_map_spec(&self) -> &Unwrap<VM> {
        &self.vert_map
    }

    /// The mapping from edges of one graph to edges of another.
    pub closed spec fn edge_map_spec(&self) -> &Unwrap<EM> {
        &self.edge_map
    }

    /// Puts the two mappings together.
    pub fn new(vert_map: Unwrap<VM>, edge_map: Unwrap<EM>) -> (h: Self)
        ensures
            *h.vert_map_spec() == vert_map,
            *h.edge_map_spec() == edge_map,
    {
        Homomorphism { vert_map, edge_map }
    }

    /// A mapping from vertices of one graph to vertices of another.
    pub fn vert_map(&self) -> (m: &Unwrap<VM>)
        ensures
            m == self.vert_map_spec(),
    {
        &self.vert_map
    }

    /// Maps a vertex from one graph to another.
    pub fn map_vert<K, W: Copy>(&self, v: K) -> (w: W) where VM: MapGet<K, Value = Option<W>>
        requires
            self.vert_map_spec().defined(v),
        ensures
            w == self.vert_map_spec().at(v),
    {
        *self.vert_map.get(v)
    }

    /// A mapping from edges of one graph to edges of another.
    pub fn edge_map(&self) -> (m: &Unwrap<EM>)
        ensures
            m == self.edge_map_spec(),
    {
        &self.edge_map
    }

    /// Maps an edge from one graph to another.
    pub fn map_edge<K, W: Copy>(&self, e: K) -> (d: W) where EM: MapGet<K, Value = Option<W>>
        requires
            self.edge_map_spec().defined(e),
        ensures
            d == self.edge_map_spec().at(e),
    {
        *self.edge_map.get(e)
    }
}

} // verus!
