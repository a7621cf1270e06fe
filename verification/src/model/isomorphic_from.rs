//! Copying the structure of any graph into a graph that can grow.

use vstd::prelude::*;
use crate::digraph::{Digraph, EdgeMaps, VertMaps};
use crate::homomorphism::{is_isomorphism, Homomorphism};
use crate::insert_graph::InsertGraph;
use crate::map::{MapGet, MapMut, Unwrap};
use crate::seq_facts::{enumerates, lemma_enumerated_len};

verus! {

/// Whether `from` has no more vertices and no more edges than an empty graph
/// of the type `To` has room for.
pub open spec fn fits<G: Digraph, To: InsertGraph>(from: &G) -> bool {
    &&& from.vert_set().len() <= To::capacity()
    &&& from.edge_set().len() <= To::capacity()
}

/// The conversion of any graph into a graph of this type.
pub trait IsomorphicFrom: InsertGraph {
    /// Constructs a graph isomorphic to the given graph and returns it along
    /// with mappings from the given graph's vertices and edges to those in
    /// the new graph.
    fn isomorphic_from<G>(from: &G) -> (copy: (
        Self,
        Homomorphism<
            <G as VertMaps<Option<Self::Vert>>>::VertMap,
            <G as EdgeMaps<Option<Self::Edge>>>::EdgeMap,
        >,
    )) where G: VertMaps<Option<Self::Vert>> + EdgeMaps<Option<Self::Edge>>
        requires
            from.wf(),
            fits::<G, Self>(from),
        ensures
            copy.0.wf(),
            forall|v: G::Vert| from.vert_set().contains(v) ==> copy.1.vert_map_spec().defined(v),
            forall|e: G::Edge| from.edge_set().contains(e) ==> copy.1.edge_map_spec().defined(e),
            is_isomorphism(from, &copy.0, copy.1.vert_map_spec(), copy.1.edge_map_spec()),
    ;

    /// Constructs a graph isomorphic to the given graph.
    fn from_graph<G>(from: &G) -> (copy: Self) where
        G: VertMaps<Option<Self::Vert>> + EdgeMaps<Option<Self::Edge>>,

        requires
            from.wf(),
            fits::<G, Self>(from),
        ensures
            copy.wf(),
            exists|
                vert_map: Unwrap<<G as VertMaps<Option<Self::Vert>>>::VertMap>,
                edge_map: Unwrap<<G as EdgeMaps<Option<Self::Edge>>>::EdgeMap>,
            | #[trigger] is_isomorphism(from, &copy, &vert_map, &edge_map),
    ;
}

impl<To: InsertGraph> IsomorphicFrom for To {
    fn isomorphic_from<G>(from: &G) -> (copy: (
        Self,
        Homomorphism<
            <G as VertMaps<Option<Self::Vert>>>::VertMap,
            <G as EdgeMaps<Option<Self::Edge>>>::EdgeMap,
        >,
    )) where G: VertMaps<Option<Self::Vert>> + EdgeMaps<Option<Self::Edge>> {
        proof {
            from.lemma_finite();
        }
        let mut to = Self::new();
        let mut vmap = from.ephemeral_vert_map(None);
        let verts = from.verts();
        let ghost mut vert_images: Seq<Self::Vert> = Seq::empty();
        proof {
            lemma_enumerated_len(verts@, from.vert_set());
        }
        let mut i: usize = 0;
        while i < verts.len()
            invariant
                i <= verts@.len(),
                verts@.len() <= Self::capacity(),
                enumerates(verts@, from.vert_set()),
                to.wf(),
                to.edge_set() == Set::<Self::Edge>::empty(),
                to.vert_room() >= Self::capacity() - i,
                to.edge_room() == Self::capacity(),
                forall|v: G::Vert| vmap.defined(v),
                vert_images.len() == i,
                enumerates(vert_images, to.vert_set()),
                forall|j: int| 0 <= j < i ==> vmap.at(#[trigger] verts@[j]) == Some(vert_images[j]),
            decreases verts@.len() - i,
        {
            let v = verts[i];
            let image = to.insert_vert();
            let ghost before = vmap;
            *vmap.get_mut(v) = Some(image);
            proof {
                assert forall|j: int| 0 <= j < i implies vmap.at(#[trigger] verts@[j]) == Some(
                    vert_images[j],
                ) by {
                    assert(verts@[j] != verts@[i as int]);
                    assert(before.at(verts@[j]) == Some(vert_images[j]));
                }
                assert(!vert_images.contains(image));
                let longer = vert_images.push(image);
                assert forall|a: int, b: int|
                    0 <= a < longer.len() && 0 <= b < longer.len() && a != b implies longer[a]
                    != longer[b] by {
                    if a < i {
                        assert(vert_images.contains(vert_images[a]));
                    }
                    if b < i {
                        assert(vert_images.contains(vert_images[b]));
                    }
                }
                assert forall|w: Self::Vert| longer.contains(w) <==> to.vert_set().contains(w) by {
                    if longer.contains(w) {
                        let a = choose|a: int| 0 <= a < longer.len() && longer[a] == w;
                        if a < i {
                            assert(vert_images.contains(vert_images[a]));
                        }
                    }
                    if to.vert_set().contains(w) {
                        if w == image {
                            assert(longer[i as int] == w);
                        } else {
                            assert(vert_images.contains(w));
                            let a = choose|a: int| 0 <= a < vert_images.len() && vert_images[a] == w;
                            assert(longer[a] == w);
                        }
                    }
                }
                vert_images = longer;
            }
            i += 1;
        }
        let mut emap = from.ephemeral_edge_map(None);
        let edges = from.edges();
        let ghost mut edge_images: Seq<Self::Edge> = Seq::empty();
        proof {
            lemma_enumerated_len(edges@, from.edge_set());
        }
        let mut i: usize = 0;
        while i < edges.len()
            invariant
                i <= edges@.len(),
                edges@.len() <= Self::capacity(),
                from.wf(),
                enumerates(verts@, from.vert_set()),
                enumerates(edges@, from.edge_set()),
                to.wf(),
                to.edge_room() >= Self::capacity() - i,
                forall|v: G::Vert| vmap.defined(v),
                forall|e: G::Edge| emap.defined(e),
                vert_images.len() == verts@.len(),
                enumerates(vert_images, to.vert_set()),
                forall|j: int|
                    0 <= j < verts@.len() ==> vmap.at(#[trigger] verts@[j]) == Some(vert_images[j]),
                edge_images.len() == i,
                enumerates(edge_images, to.edge_set()),
                forall|j: int| 0 <= j < i ==> emap.at(#[trigger] edges@[j]) == Some(edge_images[j]),
                forall|j: int|
                    0 <= j < i ==> to.endpoints_spec(#[trigger] edge_images[j]) == (
                        vmap.at(from.endpoints_spec(edges@[j]).0).unwrap(),
                        vmap.at(from.endpoints_spec(edges@[j]).1).unwrap(),
                    ),
            decreases edges@.len() - i,
        {
            let e = edges[i];
            proof {
                assert(edges@.contains(e));
                from.lemma_endpoints_are_verts(e);
                let t = from.endpoints_spec(e).0;
                let h = from.endpoints_spec(e).1;
                assert(verts@.contains(t));
                assert(verts@.contains(h));
                let a = choose|a: int| 0 <= a < verts@.len() && verts@[a] == t;
                let b = choose|b: int| 0 <= b < verts@.len() && verts@[b] == h;
                assert(vmap.at(verts@[a]) == Some(vert_images[a]));
                assert(vmap.at(verts@[b]) == Some(vert_images[b]));
                assert(vert_images.contains(vert_images[a]));
                assert(vert_images.contains(vert_images[b]));
            }
            let (tail, head) = from.endpoints(e);
            let image_tail = match *vmap.get(tail) {
                Some(image) => image,
                None => vstd::pervasive::unreached(),
            };
            let image_head = match *vmap.get(head) {
                Some(image) => image,
                None => vstd::pervasive::unreached(),
            };
            let ghost grown = to;
            let image = to.insert_edge(image_tail, image_head);
            let ghost before = emap;
            *emap.get_mut(e) = Some(image);
            proof {
                assert forall|j: int| 0 <= j < i implies emap.at(#[trigger] edges@[j]) == Some(
                    edge_images[j],
                ) by {
                    assert(edges@[j] != edges@[i as int]);
                    assert(before.at(edges@[j]) == Some(edge_images[j]));
                }
                assert(!edge_images.contains(image));
                let longer = edge_images.push(image);
                assert forall|a: int, b: int|
                    0 <= a < longer.len() && 0 <= b < longer.len() && a != b implies longer[a]
                    != longer[b] by {
                    if a < i {
                        assert(edge_images.contains(edge_images[a]));
                    }
                    if b < i {
                        assert(edge_images.contains(edge_images[b]));
                    }
                }
                assert forall|w: Self::Edge| longer.contains(w) <==> to.edge_set().contains(w) by {
                    if longer.contains(w) {
                        let a = choose|a: int| 0 <= a < longer.len() && longer[a] == w;
                        if a < i {
                            assert(edge_images.contains(edge_images[a]));
                        }
                    }
                    if to.edge_set().contains(w) {
                        if w == image {
                            assert(longer[i as int] == w);
                        } else {
                            assert(edge_images.contains(w));
                            let a = choose|a: int| 0 <= a < edge_images.len() && edge_images[a] == w;
                            assert(longer[a] == w);
                        }
                    }
                }
                assert forall|j: int| 0 <= j < i + 1 implies to.endpoints_spec(
                    #[trigger] longer[j],
                ) == (
                    vmap.at(from.endpoints_spec(edges@[j]).0).unwrap(),
                    vmap.at(from.endpoints_spec(edges@[j]).1).unwrap(),
                ) by {
                    if j < i {
                        assert(edge_images.contains(edge_images[j]));
                        assert(grown.endpoints_spec(edge_images[j]) == (
                            vmap.at(from.endpoints_spec(edges@[j]).0).unwrap(),
                            vmap.at(from.endpoints_spec(edges@[j]).1).unwrap(),
                        ));
                    }
                }
                edge_images = longer;
            }
            i += 1;
        }
        let vert_map = Unwrap::new(vmap);
        let edge_map = Unwrap::new(emap);
        proof {
            assert forall|v: G::Vert| from.vert_set().contains(v) implies vert_map.defined(v)
                && to.vert_set().contains(vert_map.at(v)) by {
                assert(verts@.contains(v));
                let a = choose|a: int| 0 <= a < verts@.len() && verts@[a] == v;
                assert(vmap.at(verts@[a]) == Some(vert_images[a]));
                assert(vert_images.contains(vert_images[a]));
            }
            assert forall|a: G::Vert, b: G::Vert|
                from.vert_set().contains(a) && from.vert_set().contains(b) && #[trigger] vert_map.at(
                    a,
                ) == #[trigger] vert_map.at(b) implies a == b by {
                assert(verts@.contains(a));
                assert(verts@.contains(b));
                let n = choose|n: int| 0 <= n < verts@.len() && verts@[n] == a;
                let m = choose|m: int| 0 <= m < verts@.len() && verts@[m] == b;
                assert(vmap.at(verts@[n]) == Some(vert_images[n]));
                assert(vmap.at(verts@[m]) == Some(vert_images[m]));
            }
            assert forall|w: Self::Vert| to.vert_set().contains(w) implies exists|v: G::Vert|
                from.vert_set().contains(v) && #[trigger] vert_map.at(v) == w by {
                assert(vert_images.contains(w));
                let n = choose|n: int| 0 <= n < vert_images.len() && vert_images[n] == w;
                assert(vmap.at(verts@[n]) == Some(vert_images[n]));
                assert(verts@.contains(verts@[n]));
                assert(from.vert_set().contains(verts@[n]) && vert_map.at(verts@[n]) == w);
            }
            assert forall|e: G::Edge| from.edge_set().contains(e) implies edge_map.defined(e)
                && to.edge_set().contains(edge_map.at(e)) && to.endpoints_spec(
                #[trigger] edge_map.at(e),
            ) == (
                vert_map.at(from.endpoints_spec(e).0),
                vert_map.at(from.endpoints_spec(e).1),
            ) by {
                assert(edges@.contains(e));
                let a = choose|a: int| 0 <= a < edges@.len() && edges@[a] == e;
                assert(emap.at(edges@[a]) == Some(edge_images[a]));
                assert(edge_images.contains(edge_images[a]));
                assert(to.endpoints_spec(edge_images[a]) == (
                    vmap.at(from.endpoints_spec(edges@[a]).0).unwrap(),
                    vmap.at(from.endpoints_spec(edges@[a]).1).unwrap(),
                ));
            }
            assert forall|a: G::Edge, b: G::Edge|
                from.edge_set().contains(a) && from.edge_set().contains(b) && #[trigger] edge_map.at(
                    a,
                ) == #[trigger] edge_map.at(b) implies a == b by {
                assert(edges@.contains(a));
                assert(edges@.contains(b));
                let n = choose|n: int| 0 <= n < edges@.len() && edges@[n] == a;
                let m = choose|m: int| 0 <= m < edges@.len() && edges@[m] == b;
                assert(emap.at(edges@[n]) == Some(edge_images[n]));
                assert(emap.at(edges@[m]) == Some(edge_images[m]));
            }
            assert forall|w: Self::Edge| to.edge_set().contains(w) implies exists|e: G::Edge|
                from.edge_set().contains(e) && #[trigger] edge_map.at(e) == w by {
                assert(edge_images.contains(w));
                let n = choose|n: int| 0 <= n < edge_images.len() && edge_images[n] == w;
                assert(emap.at(edges@[n]) == Some(edge_images[n]));
                assert(edges@.contains(edges@[n]));
                assert(from.edge_set().contains(edges@[n]) && edge_map.at(edges@[n]) == w);
            }
        }
        (to, Homomorphism::new(vert_map, edge_map))
    }

    fn from_graph<G>(from: &G) -> (copy: Self) where
        G: VertMaps<Option<Self::Vert>> + EdgeMaps<Option<Self::Edge>>,
     {
        let (copy, maps) = Self::isomorphic_from(from);
        proof {
            assert(is_isomorphism(from, &copy, maps.vert_map_spec(), maps.edge_map_spec()));
        }
        copy
    }
}

} // verus!
