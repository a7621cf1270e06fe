use sif::digraph::{Digraph, ExactOrderDigraph, ExactSizeDigraph};
use sif::in_graph::InGraph;
use sif::insert_graph::InsertGraph;
use sif::model::dense_bi_adjacency_list::DenseBiAdjacencyList;
use sif::model::sparse_bi_adjacency_list::SparseBiAdjacencyList;
use sif::model::tensor_product::Pair;
use sif::out_graph::OutGraph;
use std::collections::HashSet;

#[test]
fn tensor_product_pairs_in_row_order() {
    let mut g0 = DenseBiAdjacencyList::new();
    let a = g0.insert_vert();
    let b = g0.insert_vert();
    let ab = g0.insert_edge(a, b);
    let bb = g0.insert_edge(b, b);
    let mut g1 = DenseBiAdjacencyList::new();
    let x = g1.insert_vert();
    let y = g1.insert_vert();
    let z = g1.insert_vert();
    let xy = g1.insert_edge(x, y);
    let zx = g1.insert_edge(z, x);
    let yx = g1.insert_edge(y, x);
    let g = (g0, g1);
    assert_eq!(
        g.verts(),
        vec![Pair(a, x), Pair(a, y), Pair(a, z), Pair(b, x), Pair(b, y), Pair(b, z)]
    );
    assert_eq!(
        g.edges(),
        vec![Pair(ab, xy), Pair(ab, zx), Pair(ab, yx), Pair(bb, xy), Pair(bb, zx), Pair(bb, yx)]
    );
    assert_eq!(g.endpoints(Pair(ab, zx)), (Pair(a, z), Pair(b, x)));
    assert_eq!(g.tail(Pair(bb, yx)), Pair(b, y));
    assert_eq!(g.head(Pair(bb, yx)), Pair(b, x));
    assert_eq!(g.out_edges(Pair(b, y)), vec![Pair(bb, yx)]);
    assert_eq!(g.out_edges(Pair(a, z)), vec![Pair(ab, zx)]);
    assert_eq!(g.out_edges(Pair(a, x)), vec![Pair(ab, xy)]);
    assert_eq!(g.in_edges(Pair(a, x)), vec![]);
    assert_eq!(g.in_edges(Pair(b, x)), vec![Pair(ab, zx), Pair(ab, yx), Pair(bb, zx), Pair(bb, yx)]);
    assert_eq!(g.order(), 6);
    assert_eq!(g.size(), 6);
}

#[test]
fn tensor_product_with_an_empty_factor_is_empty() {
    let mut g0 = SparseBiAdjacencyList::new();
    let a = g0.insert_vert();
    g0.insert_edge(a, a);
    let g1 = DenseBiAdjacencyList::new();
    let g = (g0, g1);
    assert_eq!(g.verts(), vec![]);
    assert_eq!(g.edges(), vec![]);
    let mut g0 = SparseBiAdjacencyList::new();
    let a = g0.insert_vert();
    let g = (sif::model::dense_bi_adjacency_list::DenseBiAdjacencyList::new(), g0);
    assert_eq!(g.verts(), vec![]);
    assert_eq!(a, a);
}

#[test]
fn tensor_product_invariants() {
    let mut state: u64 = 99;
    for round in 0..10usize {
        let mut g0 = DenseBiAdjacencyList::new();
        let mut g1 = SparseBiAdjacencyList::new();
        let v0: Vec<_> = (0..1 + round % 4).map(|_| g0.insert_vert()).collect();
        let v1: Vec<_> = (0..1 + round % 3).map(|_| g1.insert_vert()).collect();
        for _ in 0..round {
            state = state.wrapping_mul(6364136223846793005).wrapping_add(1442695040888963407);
            let s = (state >> 33) as usize;
            g0.insert_edge(v0[s % v0.len()], v0[(s / 7) % v0.len()]);
            g1.insert_edge(v1[(s / 11) % v1.len()], v1[(s / 13) % v1.len()]);
        }
        let g = (g0, g1);
        assert_eq!(g.verts().len(), g.0.verts().len() * g.1.verts().len());
        assert_eq!(g.edges().len(), g.0.edges().len() * g.1.edges().len());
        let verts: HashSet<_> = g.verts().into_iter().collect();
        assert_eq!(verts.len(), g.order());
        let mut outs = HashSet::new();
        let mut ins = HashSet::new();
        for v in g.verts() {
            for e in g.out_edges(v) {
                assert_eq!(g.tail(e), v);
                assert!(outs.insert(e));
            }
            for e in g.in_edges(v) {
                assert_eq!(g.head(e), v);
                assert!(ins.insert(e));
            }
        }
        for e in g.edges() {
            assert!(outs.contains(&e));
            assert!(ins.contains(&e));
            let (t, h) = g.endpoints(e);
            assert!(verts.contains(&t));
            assert!(verts.contains(&h));
        }
    }
}
