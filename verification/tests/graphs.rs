use sif::digraph::{Digraph, EdgeMaps, ExactOrderDigraph, ExactSizeDigraph, VertMaps};
use sif::homomorphism::Isomorphic;
use sif::in_graph::{ExactInDegreeDigraph, InGraph};
use sif::insert_graph::InsertGraph;
use sif::map::{MapGet, MapMut};
use sif::model::dense_bi_adjacency_list::DenseBiAdjacencyList;
use sif::model::dense_in_adjacency_list::DenseInAdjacencyList;
use sif::model::dense_out_adjacency_list::DenseOutAdjacencyList;
use sif::model::immutable_in_adjacency_list::ImmutableInAdjacencyList;
use sif::model::immutable_out_adjacency_list::ImmutableOutAdjacencyList;
use sif::model::isomorphic_from::IsomorphicFrom;
use sif::model::sparse_bi_adjacency_list::SparseBiAdjacencyList;
use sif::model::sparse_edge_list::SparseEdgeList;
use sif::model::sparse_in_adjacency_list::SparseInAdjacencyList;
use sif::model::sparse_out_adjacency_list::SparseOutAdjacencyList;
use sif::out_graph::{ExactOutDegreeDigraph, OutGraph};
use std::collections::HashSet;
use std::fmt::Debug;
use std::hash::Hash;

fn random_edges(order: usize, size: usize, seed: u64) -> Vec<(usize, usize)> {
    let mut state = seed;
    let mut edges = Vec::new();
    if order == 0 {
        return edges;
    }
    for _ in 0..size {
        state = state.wrapping_mul(6364136223846793005).wrapping_add(1442695040888963407);
        let tail = ((state >> 33) as usize) % order;
        state = state.wrapping_mul(6364136223846793005).wrapping_add(1442695040888963407);
        let head = ((state >> 33) as usize) % order;
        edges.push((tail, head));
    }
    edges
}

fn build<G: InsertGraph>(order: usize, edges: &[(usize, usize)]) -> (G, Vec<G::Vert>, Vec<G::Edge>) {
    let mut g = G::new();
    let mut vs = Vec::new();
    for _ in 0..order {
        vs.push(g.insert_vert());
    }
    let mut es = Vec::new();
    for (t, h) in edges {
        let e = g.insert_edge(vs[*t], vs[*h]);
        assert_eq!(g.endpoints(e), (vs[*t], vs[*h]));
        es.push(e);
    }
    (g, vs, es)
}

fn check_digraph<G>(g: &G)
where
    G: Digraph + VertMaps<Option<<G as Digraph>::Vert>> + EdgeMaps<Option<<G as Digraph>::Edge>>,
    G::Vert: Eq + Hash + Debug,
    G::Edge: Eq + Hash + Debug,
{
    let mut verts = HashSet::new();
    for v in g.verts() {
        assert!(verts.insert(v), "vertices are distinct");
    }
    let mut edges = HashSet::new();
    for e in g.edges() {
        assert!(edges.insert(e), "edges are distinct");
    }
    assert_eq!(g.order(), verts.len());
    assert_eq!(g.size(), edges.len());
    for e in g.edges() {
        let (tail, head) = g.endpoints(e);
        assert!(verts.contains(&tail));
        assert!(verts.contains(&head));
        assert_eq!(g.tail(e), tail);
        assert_eq!(g.head(e), head);
    }
    let mut map = g.ephemeral_vert_map(None);
    for v in g.verts() {
        assert_eq!(*map.get(v), None);
        *map.get_mut(v) = Some(v);
    }
    for v in g.verts() {
        assert_eq!(*map.get(v), Some(v));
    }
    let mut map = g.ephemeral_edge_map(None);
    for e in g.edges() {
        assert_eq!(*map.get(e), None);
        *map.get_mut(e) = Some(e);
    }
    for e in g.edges() {
        assert_eq!(*map.get(e), Some(e));
    }
}

fn check_out<G: OutGraph>(g: &G)
where
    G::Vert: Eq + Hash + Debug,
    G::Edge: Eq + Hash + Debug,
{
    let mut set = HashSet::new();
    for v in g.verts() {
        assert_eq!(g.out_degree(v), g.out_edges(v).len());
        for e in g.out_edges(v) {
            assert_eq!(g.tail(e), v, "out-edges of vertex matching tails");
            assert!(set.insert(e), "out-edges are distinct");
        }
    }
    for e in g.edges() {
        assert!(set.contains(&e));
    }
}

fn check_in<G: InGraph>(g: &G)
where
    G::Vert: Eq + Hash + Debug,
    G::Edge: Eq + Hash + Debug,
{
    let mut set = HashSet::new();
    for v in g.verts() {
        assert_eq!(g.in_degree(v), g.in_edges(v).len());
        for e in g.in_edges(v) {
            assert_eq!(g.head(e), v);
            assert!(set.insert(e));
        }
    }
    for e in g.edges() {
        assert!(set.contains(&e));
    }
}

fn check_copy<G, H>(g: &G)
where
    G: Digraph + VertMaps<Option<<H as Digraph>::Vert>> + EdgeMaps<Option<<H as Digraph>::Edge>>,
    H: InsertGraph + VertMaps<bool> + EdgeMaps<bool>,
{
    let (copy, maps) = H::isomorphic_from(g);
    assert!(g.is_isomorphic_with_maps(&copy, maps.vert_map(), maps.edge_map()));
    assert_eq!(g.verts().len(), copy.verts().len());
    assert_eq!(g.edges().len(), copy.edges().len());
    for e in g.edges() {
        let (t, h) = g.endpoints(e);
        let (ct, ch) = copy.endpoints(maps.map_edge(e));
        assert!(H::same_vert(maps.map_vert(t), ct));
        assert!(H::same_vert(maps.map_vert(h), ch));
    }
}

fn rounds() -> Vec<(usize, Vec<(usize, usize)>)> {
    let mut all = vec![(0, vec![]), (1, vec![]), (1, vec![(0, 0), (0, 0)])];
    for round in 0..20u64 {
        let order = (round as usize * 5) % 27;
        all.push((order, random_edges(order, (round as usize * 17) % 90, round + 3)));
    }
    all
}

#[test]
fn dense_out_adjacency_list_invariants() {
    for (order, edges) in rounds() {
        let (g, _, _) = build::<DenseOutAdjacencyList>(order, &edges);
        check_digraph(&g);
        check_out(&g);
    }
}

#[test]
fn dense_in_adjacency_list_invariants() {
    for (order, edges) in rounds() {
        let (g, _, _) = build::<DenseInAdjacencyList>(order, &edges);
        check_digraph(&g);
        check_in(&g);
    }
}

#[test]
fn dense_bi_adjacency_list_invariants() {
    for (order, edges) in rounds() {
        let (g, _, _) = build::<DenseBiAdjacencyList>(order, &edges);
        check_digraph(&g);
        check_out(&g);
        check_in(&g);
    }
}

#[test]
fn sparse_edge_list_invariants() {
    for (order, edges) in rounds() {
        let (g, _, _) = build::<SparseEdgeList>(order, &edges);
        check_digraph(&g);
    }
}

#[test]
fn sparse_out_adjacency_list_invariants() {
    for (order, edges) in rounds() {
        let (g, _, _) = build::<SparseOutAdjacencyList>(order, &edges);
        check_digraph(&g);
        check_out(&g);
    }
}

#[test]
fn sparse_in_adjacency_list_invariants() {
    for (order, edges) in rounds() {
        let (g, _, _) = build::<SparseInAdjacencyList>(order, &edges);
        check_digraph(&g);
        check_in(&g);
    }
}

#[test]
fn sparse_bi_adjacency_list_invariants() {
    for (order, edges) in rounds() {
        let (g, _, _) = build::<SparseBiAdjacencyList>(order, &edges);
        check_digraph(&g);
        check_out(&g);
        check_in(&g);
    }
}

#[test]
fn immutable_adjacency_list_invariants() {
    for (order, edges) in rounds() {
        let (source, _, _) = build::<DenseBiAdjacencyList>(order, &edges);
        let (g, maps) = ImmutableOutAdjacencyList::isomorphic_from(&source);
        assert!(source.is_isomorphic_with_maps(&g, maps.vert_map(), maps.edge_map()));
        check_digraph(&g);
        check_out(&g);
        let (g, maps) = ImmutableInAdjacencyList::isomorphic_from(&source);
        assert!(source.is_isomorphic_with_maps(&g, maps.vert_map(), maps.edge_map()));
        check_digraph(&g);
        check_in(&g);
    }
}

#[test]
fn immutable_out_adjacency_list_keeps_runs_together() {
    let (source, v, e) = build::<DenseOutAdjacencyList>(3, &[(2, 0), (0, 1), (2, 1), (0, 2)]);
    let (g, maps) = ImmutableOutAdjacencyList::isomorphic_from(&source);
    let verts = g.verts();
    assert_eq!(maps.map_vert(v[0]), verts[0]);
    assert_eq!(maps.map_vert(v[2]), verts[2]);
    let edges = g.edges();
    assert_eq!(maps.map_edge(e[1]), edges[0]);
    assert_eq!(maps.map_edge(e[3]), edges[1]);
    assert_eq!(maps.map_edge(e[0]), edges[2]);
    assert_eq!(maps.map_edge(e[2]), edges[3]);
    assert_eq!(g.out_edges(verts[0]), vec![edges[0], edges[1]]);
    assert_eq!(g.out_edges(verts[1]), vec![]);
    assert_eq!(g.out_edges(verts[2]), vec![edges[2], edges[3]]);
    assert_eq!(g.endpoints(edges[2]), (verts[2], verts[0]));
    assert_eq!(g.endpoints(edges[1]), (verts[0], verts[2]));
}

#[test]
fn ismorphic_from() {
    for (order, edges) in rounds() {
        let (g, _, _) = build::<DenseOutAdjacencyList>(order, &edges);
        check_copy::<_, DenseOutAdjacencyList>(&g);
        check_copy::<_, DenseInAdjacencyList>(&g);
        check_copy::<_, DenseBiAdjacencyList>(&g);
        check_copy::<_, SparseEdgeList>(&g);
        check_copy::<_, SparseOutAdjacencyList>(&g);
        check_copy::<_, SparseInAdjacencyList>(&g);
        check_copy::<_, SparseBiAdjacencyList>(&g);
        let (g, _, _) = build::<SparseBiAdjacencyList>(order, &edges);
        check_copy::<_, DenseBiAdjacencyList>(&g);
        check_copy::<_, SparseBiAdjacencyList>(&g);
    }
}

#[test]
fn is_isomorphic_with_maps_rejects_wrong_maps() {
    let (g, v, e) = build::<DenseOutAdjacencyList>(2, &[(0, 1)]);
    let (h, w, d) = build::<DenseOutAdjacencyList>(2, &[(0, 1)]);
    let mut vmap = g.vert_map(w[0]);
    let mut emap = g.edge_map(d[0]);
    *vmap.get_mut(v[0]) = w[0];
    *vmap.get_mut(v[1]) = w[1];
    *emap.get_mut(e[0]) = d[0];
    assert!(g.is_isomorphic_with_maps(&h, &vmap, &emap));
    // Swapped vertices do not keep the endpoints.
    *vmap.get_mut(v[0]) = w[1];
    *vmap.get_mut(v[1]) = w[0];
    assert!(!g.is_isomorphic_with_maps(&h, &vmap, &emap));
    // Two vertices with one image.
    *vmap.get_mut(v[0]) = w[0];
    *vmap.get_mut(v[1]) = w[0];
    assert!(!g.is_isomorphic_with_maps(&h, &vmap, &emap));
    // A graph with one vertex more.
    let (bigger, x, y) = build::<DenseOutAdjacencyList>(3, &[(0, 1)]);
    *vmap.get_mut(v[0]) = x[0];
    *vmap.get_mut(v[1]) = x[1];
    *emap.get_mut(e[0]) = y[0];
    assert!(!g.is_isomorphic_with_maps(&bigger, &vmap, &emap));
    assert!(!bigger.is_isomorphic_with_maps(&g, &vmap, &emap));
}

#[test]
fn remove_middle_vertex_of_a_path() {
    let mut g = SparseBiAdjacencyList::new();
    let a = g.insert_vert();
    let b = g.insert_vert();
    let c = g.insert_vert();
    let ab = g.insert_edge(a, b);
    let bc = g.insert_edge(b, c);
    assert_eq!(g.out_edges(a), vec![ab]);
    assert_eq!(g.in_edges(c), vec![bc]);
    g.remove_vert(b);
    assert_eq!(g.edges(), vec![]);
    let mut verts = g.verts();
    verts.sort();
    let mut expected = vec![a, c];
    expected.sort();
    assert_eq!(verts, expected);
    assert_eq!(g.out_edges(a), vec![]);
    assert_eq!(g.in_edges(a), vec![]);
    assert_eq!(g.out_edges(c), vec![]);
    assert_eq!(g.in_edges(c), vec![]);
    // The freed handles are handed out again.
    let again = g.insert_vert();
    assert_eq!(again, b);
    let e = g.insert_edge(a, again);
    assert!(e == ab || e == bc);
    assert_eq!(g.endpoints(e), (a, again));
}

#[test]
fn remove_vert() {
    for (order, edges) in rounds() {
        let (mut g, _, _) = build::<SparseBiAdjacencyList>(order, &edges);
        let mut removed = HashSet::new();
        while let Some(v) = g.verts().first().copied() {
            let touching: Vec<_> =
                g.edges().into_iter().filter(|e| g.tail(*e) == v || g.head(*e) == v).collect();
            let size = g.size();
            g.remove_vert(v);
            assert_eq!(g.size(), size - touching.len());
            for e in touching {
                assert!(!g.edges().contains(&e));
            }
            assert!(removed.insert(v));
            check_digraph(&g);
            check_out(&g);
            check_in(&g);
        }
        assert_eq!(g.size(), 0);
    }
}

#[test]
fn remove_edge() {
    for (order, edges) in rounds() {
        let (mut bi, _, _) = build::<SparseBiAdjacencyList>(order, &edges);
        let (mut out, _, _) = build::<SparseOutAdjacencyList>(order, &edges);
        let (mut inn, _, _) = build::<SparseInAdjacencyList>(order, &edges);
        let (mut list, _, _) = build::<SparseEdgeList>(order, &edges);
        let mut removed = HashSet::new();
        while let Some(e) = bi.edges().first().copied() {
            let ends = bi.endpoints(e);
            bi.remove_edge(e);
            assert!(removed.insert(e));
            assert!(!bi.edges().contains(&e));
            assert!(!bi.out_edges(ends.0).contains(&e));
            assert!(!bi.in_edges(ends.1).contains(&e));
            check_digraph(&bi);
            check_out(&bi);
            check_in(&bi);
        }
        while let Some(e) = out.edges().first().copied() {
            out.remove_edge(e);
            check_digraph(&out);
            check_out(&out);
        }
        while let Some(e) = inn.edges().first().copied() {
            inn.remove_edge(e);
            check_digraph(&inn);
            check_in(&inn);
        }
        while let Some(e) = list.edges().first().copied() {
            let before = list.size();
            list.remove_edge(e);
            assert_eq!(list.size(), before - 1);
            check_digraph(&list);
        }
    }
}

#[test]
fn vert_map_follows_growth() {
    let (mut g, _, _) = build::<DenseBiAdjacencyList>(3, &[(0, 1)]);
    let mut map = g.vert_map("foo");
    let v = g.insert_vert();
    assert_eq!(*map.get(v), "foo");
    *map.get_mut(v) = "bar";
    assert_eq!(*map.get(v), "bar");
    let mut map = g.edge_map(0);
    let e = g.insert_edge(v, v);
    assert_eq!(*map.get(e), 0);
    *map.get_mut(e) = 42;
    assert_eq!(*map.get(e), 42);
    let (mut g, _, _) = build::<SparseBiAdjacencyList>(3, &[(0, 1)]);
    let mut map = g.vert_map(None);
    let v = g.insert_vert();
    assert_eq!(*map.get(v), None);
    *map.get_mut(v) = Some(v);
    assert_eq!(*map.get(v), Some(v));
}

#[test]
fn from_graph_copies_the_structure() {
    for (order, edges) in rounds() {
        let (g, _, _) = build::<DenseBiAdjacencyList>(order, &edges);
        let copy = SparseBiAdjacencyList::from_graph(&g);
        assert_eq!(copy.order(), g.order());
        assert_eq!(copy.size(), g.size());
        check_digraph(&copy);
        check_out(&copy);
        check_in(&copy);
        let copy = ImmutableOutAdjacencyList::from_graph(&g);
        assert_eq!(copy.order(), g.order());
        assert_eq!(copy.size(), g.size());
        let copy = ImmutableInAdjacencyList::from_graph(&g);
        assert_eq!(copy.order(), g.order());
        assert_eq!(copy.size(), g.size());
        let mut out_degrees: Vec<usize> = g.verts().into_iter().map(|v| g.out_degree(v)).collect();
        let copy = DenseOutAdjacencyList::from_graph(&g);
        let mut copied: Vec<usize> = copy.verts().into_iter().map(|v| copy.out_degree(v)).collect();
        out_degrees.sort();
        copied.sort();
        assert_eq!(out_degrees, copied);
    }
}

#[test]
fn default_graphs_are_empty() {
    assert_eq!(DenseOutAdjacencyList::default().order(), 0);
    assert_eq!(DenseInAdjacencyList::default().size(), 0);
    assert_eq!(DenseBiAdjacencyList::default().verts(), vec![]);
    assert_eq!(SparseEdgeList::default().edges(), vec![]);
    assert_eq!(SparseOutAdjacencyList::default().order(), 0);
    assert_eq!(SparseInAdjacencyList::default().order(), 0);
    assert_eq!(SparseBiAdjacencyList::default().size(), 0);
    assert_eq!(sif::model::dense_edge_list::DenseEdgeList::default().order(), 0);
}

#[test]
fn dense_edge_list_keeps_endpoints() {
    for (order, edges) in rounds() {
        let (g, vs, es) = build::<sif::model::dense_edge_list::DenseEdgeList>(order, &edges);
        check_digraph(&g);
        assert_eq!(g.verts(), vs);
        assert_eq!(g.edges(), es);
        for (i, (t, h)) in edges.iter().enumerate() {
            assert_eq!(g.endpoints(es[i]), (vs[*t], vs[*h]));
        }
    }
}

#[test]
fn dense_handles_are_handed_out_in_order() {
    let (g, vs, es) = build::<DenseBiAdjacencyList>(4, &[(0, 1), (0, 2), (3, 0), (0, 1)]);
    assert_eq!(g.verts(), vs);
    assert_eq!(g.edges(), es);
    assert_eq!(g.out_edges(vs[0]), vec![es[0], es[1], es[3]]);
    assert_eq!(g.in_edges(vs[1]), vec![es[0], es[3]]);
    assert_eq!(g.in_edges(vs[0]), vec![es[2]]);
    assert!(vs[0] < vs[1] && es[2] < es[3]);
}

#[test]
fn sparse_edges_are_handed_out_again() {
    let (mut g, vs, es) = build::<SparseOutAdjacencyList>(3, &[(0, 1), (1, 2), (2, 0)]);
    g.remove_edge(es[0]);
    g.remove_edge(es[2]);
    let again = g.insert_edge(vs[1], vs[1]);
    assert_eq!(again, es[2]);
    assert_eq!(g.endpoints(again), (vs[1], vs[1]));
    let again = g.insert_edge(vs[0], vs[2]);
    assert_eq!(again, es[0]);
    let fresh = g.insert_edge(vs[0], vs[2]);
    assert!(!es.contains(&fresh));
    let mut outs = g.out_edges(vs[1]);
    outs.sort();
    let mut expected = vec![es[1], es[2]];
    expected.sort();
    assert_eq!(outs, expected);
}

#[test]
fn default_maps_start_at_the_default_of_the_type() {
    let (mut g, vs, es) = build::<DenseBiAdjacencyList>(2, &[(0, 1)]);
    let mut m = <DenseBiAdjacencyList as VertMaps<u32>>::default_vert_map(&g);
    let v = g.insert_vert();
    assert_eq!(*m.get(v), 0);
    *m.get_mut(v) = 42;
    assert_eq!(*m.get(v), 42);
    assert_eq!(*m.get(vs[0]), 0);
    let mut m = <DenseBiAdjacencyList as EdgeMaps<bool>>::default_edge_map(&g);
    assert!(!*m.get(es[0]));
    *m.get_mut(es[0]) = true;
    assert!(*m.get(es[0]));
    let m = <DenseBiAdjacencyList as VertMaps<Option<u8>>>::default_ephemeral_vert_map(&g);
    assert_eq!(*m.get(vs[1]), None);
    let m = <DenseBiAdjacencyList as EdgeMaps<i64>>::default_ephemeral_edge_map(&g);
    assert_eq!(*m.get(es[0]), 0);
}
