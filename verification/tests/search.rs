use sif::adjacencies::{Adjacencies, InAdjacencies, OutAdjacencies};
use sif::depth_first::DepthFirstEvent;
use sif::depth_first::DepthFirstVisited;
use sif::digraph::{Digraph, EdgeMaps, ExactOrderDigraph, ExactSizeDigraph};
use sif::priority::{Distance, Priority};
use sif::in_graph::{ExactInDegreeDigraph, InGraph, InSearch};
use sif::insert_graph::InsertGraph;
use sif::map::{MapGet, MapMut};
use sif::model::dense_bi_adjacency_list::DenseBiAdjacencyList;
use sif::model::dense_in_adjacency_list::DenseInAdjacencyList;
use sif::model::dense_out_adjacency_list::DenseOutAdjacencyList;
use sif::model::key::{DenseEdge, DenseVert};
use sif::out_graph::{ExactOutDegreeDigraph, OutGraph, OutSearch};
use sif::test_distance::{TestCost, TestDistance};
use std::collections::HashSet;

fn random_edges(order: usize, size: usize, seed: u64) -> Vec<(usize, usize)> {
    let mut state = seed;
    let mut edges = Vec::new();
    for _ in 0..size {
        state = state.wrapping_mul(6364136223846793005).wrapping_add(1442695040888963407);
        let tail = ((state >> 33) as usize) % order;
        state = state.wrapping_mul(6364136223846793005).wrapping_add(1442695040888963407);
        let head = ((state >> 33) as usize) % order;
        edges.push((tail, head));
    }
    edges
}

fn build_out(order: usize, edges: &[(usize, usize)]) -> (DenseOutAdjacencyList, Vec<DenseVert>, Vec<DenseEdge>) {
    let mut g = DenseOutAdjacencyList::new();
    let mut vs = Vec::new();
    for _ in 0..order {
        vs.push(g.insert_vert());
    }
    let mut es = Vec::new();
    for (t, h) in edges {
        es.push(g.insert_edge(vs[*t], vs[*h]));
    }
    (g, vs, es)
}

fn build_in(order: usize, edges: &[(usize, usize)]) -> (DenseInAdjacencyList, Vec<DenseVert>, Vec<DenseEdge>) {
    let mut g = DenseInAdjacencyList::new();
    let mut vs = Vec::new();
    for _ in 0..order {
        vs.push(g.insert_vert());
    }
    let mut es = Vec::new();
    for (t, h) in edges {
        es.push(g.insert_edge(vs[*t], vs[*h]));
    }
    (g, vs, es)
}

#[test]
fn depth_first_classifies_edges() {
    // 0 -> 1 -> 2 -> 0, 0 -> 2, 3 -> 0, 3 -> 3
    let (g, v, e) = build_out(4, &[(0, 1), (1, 2), (2, 0), (0, 2), (3, 0), (3, 3)]);
    let mut search = g.depth_first_out();
    let mut events = Vec::new();
    while let Some(event) = search.next() {
        events.push(match event {
            DepthFirstEvent::StartTree(x) => format!("start {}", v.iter().position(|y| *y == x).unwrap()),
            DepthFirstEvent::EndTree => "end".to_string(),
            DepthFirstEvent::OpenEdge(x) => format!("open {}", e.iter().position(|y| *y == x).unwrap()),
            DepthFirstEvent::CrossEdge(x) => format!("cross {}", e.iter().position(|y| *y == x).unwrap()),
            DepthFirstEvent::BackEdge(x) => format!("back {}", e.iter().position(|y| *y == x).unwrap()),
            DepthFirstEvent::CloseEdge(x) => format!("close {}", e.iter().position(|y| *y == x).unwrap()),
            _ => unreachable!(),
        });
    }
    assert_eq!(
        events,
        vec![
            "start 0", "open 0", "open 1", "back 2", "close 1", "close 0", "cross 3", "end",
            "start 3", "back 4", "back 5", "end",
        ]
    );
    assert!(search.next().is_none());
}

#[test]
fn depth_first_out() {
    for round in 0..30u64 {
        let order = 1 + (round as usize * 5) % 23;
        let edges = random_edges(order, (round as usize * 11) % 70, round + 1);
        let (g, _, _) = build_out(order, &edges);
        let mut vs = HashSet::new();
        let mut es = HashSet::new();
        let mut stack = Vec::new();
        let mut counts = [0usize; 6];
        let mut search = g.depth_first_out();
        while let Some(event) = search.next() {
            match event {
                DepthFirstEvent::StartTree(v) => {
                    counts[0] += 1;
                    assert!(vs.insert(v));
                    stack.push(v);
                }
                DepthFirstEvent::EndTree => {
                    counts[1] += 1;
                    stack.pop().unwrap();
                }
                DepthFirstEvent::OpenEdge(e) => {
                    counts[2] += 1;
                    assert!(es.insert(e));
                    assert_eq!(g.tail(e), *stack.last().unwrap());
                    let v = g.head(e);
                    assert!(vs.insert(v));
                    stack.push(v);
                }
                DepthFirstEvent::CrossEdge(e) => {
                    counts[3] += 1;
                    assert_eq!(g.tail(e), *stack.last().unwrap());
                    assert!(!stack.contains(&g.head(e)));
                    assert!(es.insert(e));
                }
                DepthFirstEvent::BackEdge(e) => {
                    counts[4] += 1;
                    assert_eq!(g.tail(e), *stack.last().unwrap());
                    assert!(vs.contains(&g.head(e)));
                    assert!(es.insert(e));
                }
                DepthFirstEvent::CloseEdge(e) => {
                    counts[5] += 1;
                    assert_eq!(g.head(e), stack.pop().unwrap());
                    assert_eq!(g.tail(e), *stack.last().unwrap());
                }
                _ => unreachable!(),
            }
        }
        assert_eq!(g.verts().into_iter().collect::<HashSet<_>>(), vs);
        assert_eq!(g.edges().into_iter().collect::<HashSet<_>>(), es);
        assert_eq!(stack.len(), 0);
        assert_eq!(counts[0], counts[1]);
        assert_eq!(counts[2], counts[5]);
        assert_eq!(counts[2] + counts[3] + counts[4], g.size());
    }
}

#[test]
fn depth_first_in() {
    for round in 0..30u64 {
        let order = 1 + (round as usize * 7) % 19;
        let edges = random_edges(order, (round as usize * 13) % 60, round + 100);
        let (g, _, _) = build_in(order, &edges);
        let mut vs = HashSet::new();
        let mut es = HashSet::new();
        let mut stack = Vec::new();
        let mut search = g.depth_first_in();
        while let Some(event) = search.next() {
            match event {
                DepthFirstEvent::StartTree(v) => {
                    assert!(vs.insert(v));
                    stack.push(v);
                }
                DepthFirstEvent::EndTree => {
                    stack.pop().unwrap();
                }
                DepthFirstEvent::OpenEdge(e) => {
                    assert!(es.insert(e));
                    let v = g.tail(e);
                    assert!(vs.insert(v));
                    stack.push(v);
                }
                DepthFirstEvent::CrossEdge(e) => {
                    assert_eq!(g.head(e), *stack.last().unwrap());
                    assert!(es.insert(e));
                }
                DepthFirstEvent::BackEdge(e) => {
                    assert_eq!(g.head(e), *stack.last().unwrap());
                    assert!(es.insert(e));
                }
                DepthFirstEvent::CloseEdge(e) => {
                    assert_eq!(g.tail(e), stack.pop().unwrap());
                    assert_eq!(g.head(e), *stack.last().unwrap());
                }
                _ => unreachable!(),
            }
        }
        assert_eq!(g.verts().into_iter().collect::<HashSet<_>>(), vs);
        assert_eq!(g.edges().into_iter().collect::<HashSet<_>>(), es);
        assert_eq!(stack.len(), 0);
    }
}

#[test]
fn dijkstra_prefers_the_cheaper_path() {
    let (g, v, e) = build_out(3, &[(0, 1), (1, 2), (0, 2)]);
    let mut costs = g.edge_map(TestCost(0u64, e[0]));
    *costs.get_mut(e[0]) = TestCost(5, e[0]);
    *costs.get_mut(e[1]) = TestCost(3, e[1]);
    *costs.get_mut(e[2]) = TestCost(100, e[2]);
    let results = g.dijkstra(&costs, v[0], TestDistance::new(0u64));
    assert_eq!(results.get(v[0]).unwrap().cost, 0);
    assert!(results.get(v[0]).unwrap().pred.is_none());
    assert_eq!(results.get(v[1]).unwrap().cost, 5);
    assert_eq!(results.get(v[1]).unwrap().pred, Some(e[0]));
    assert_eq!(results.get(v[2]).unwrap().cost, 8);
    assert_eq!(results.get(v[2]).unwrap().pred, Some(e[1]));
}

#[test]
fn dijkstra_leaves_unreachable_vertices_without_distance() {
    let (g, v, e) = build_out(4, &[(0, 1), (2, 3), (3, 0)]);
    let mut costs = g.edge_map(0u32);
    *costs.get_mut(e[0]) = 7;
    *costs.get_mut(e[1]) = 1;
    *costs.get_mut(e[2]) = 1;
    let results = g.dijkstra(&costs, v[0], 0u32);
    assert_eq!(*results.get(v[0]), Some(0));
    assert_eq!(*results.get(v[1]), Some(7));
    assert_eq!(*results.get(v[2]), None);
    assert_eq!(*results.get(v[3]), None);
    let results = sif::dijkstra::dijkstra::<_, OutAdjacencies, _, _, _>(&g, &costs, v[2], 0u32);
    assert_eq!(*results.get(v[0]), Some(2));
    assert_eq!(*results.get(v[1]), Some(9));
    assert_eq!(*results.get(v[2]), Some(0));
    assert_eq!(*results.get(v[3]), Some(1));
}

#[test]
fn dijkstra() {
    for round in 0..25u64 {
        let order = 1 + (round as usize * 3) % 17;
        let edges = random_edges(order, 1 + (round as usize * 9) % 80, round + 7);
        let (g, _, es) = build_out(order, &edges);
        let mut costs = g.ephemeral_edge_map(TestCost(0u64, es[0]));
        let mut plain = g.ephemeral_edge_map(0u64);
        let mut c = 0u64;
        for e in g.edges() {
            c = (c + 43) % 101;
            *costs.get_mut(e) = TestCost(c, e);
            *plain.get_mut(e) = c;
        }
        for source in g.verts() {
            let results = g.dijkstra(&costs, source, TestDistance::new(0u64));
            assert_eq!(results.get(source).unwrap().cost, 0);
            assert!(results.get(source).unwrap().pred.is_none());
            for e in g.edges() {
                if let Some(tail_result) = results.get(g.tail(e)) {
                    let head_result = results.get(g.head(e)).unwrap();
                    assert!(head_result.cost <= tail_result.cost + plain.get(e));
                }
            }
            for v in g.verts() {
                if let Some(head_result) = results.get(v) {
                    if let Some(e) = head_result.pred {
                        assert_eq!(g.head(e), v);
                        let tail_result = results.get(g.tail(e)).unwrap();
                        assert!(head_result.cost == tail_result.cost + plain.get(e));
                    } else {
                        assert!(v == source);
                    }
                }
            }
        }
    }
}

#[test]
fn dijkstra_on_a_single_vertex() {
    let (g, v, _) = build_out(1, &[]);
    let costs = g.edge_map(1u64);
    let results = g.dijkstra(&costs, v[0], 0u64);
    assert_eq!(*results.get(v[0]), Some(0));
}

#[test]
fn dijkstra_to() {
    for round in 0..25u64 {
        let order = 1 + (round as usize * 3) % 17;
        let edges = random_edges(order, 1 + (round as usize * 9) % 80, round + 70);
        let (g, _, es) = build_in(order, &edges);
        let mut costs = g.ephemeral_edge_map(TestCost(0u64, es[0]));
        let mut plain = g.ephemeral_edge_map(0u64);
        let mut c = 0u64;
        for e in g.edges() {
            c = (c + 43) % 101;
            *costs.get_mut(e) = TestCost(c, e);
            *plain.get_mut(e) = c;
        }
        for source in g.verts() {
            let results = g.dijkstra_to(&costs, source, TestDistance::new(0u64));
            assert_eq!(results.get(source).unwrap().cost, 0);
            assert!(results.get(source).unwrap().pred.is_none());
            for e in g.edges() {
                if let Some(head_result) = results.get(g.head(e)) {
                    let tail_result = results.get(g.tail(e)).unwrap();
                    assert!(tail_result.cost <= head_result.cost + plain.get(e));
                }
            }
            for v in g.verts() {
                if let Some(tail_result) = results.get(v) {
                    if let Some(e) = tail_result.pred {
                        let head_result = results.get(g.head(e)).unwrap();
                        assert!(tail_result.cost == head_result.cost + plain.get(e));
                    }
                }
            }
        }
    }
}

#[test]
fn adjacencies_follow_their_direction() {
    let mut g = DenseBiAdjacencyList::new();
    let a = g.insert_vert();
    let b = g.insert_vert();
    let e = g.insert_edge(a, b);
    assert_eq!(<OutAdjacencies as Adjacencies<DenseBiAdjacencyList>>::of(&g, a), vec![e]);
    assert_eq!(<OutAdjacencies as Adjacencies<DenseBiAdjacencyList>>::of(&g, b), vec![]);
    assert_eq!(<OutAdjacencies as Adjacencies<DenseBiAdjacencyList>>::from(&g, e), a);
    assert_eq!(<OutAdjacencies as Adjacencies<DenseBiAdjacencyList>>::to(&g, e), b);
    assert_eq!(<InAdjacencies as Adjacencies<DenseBiAdjacencyList>>::of(&g, b), vec![e]);
    assert_eq!(<InAdjacencies as Adjacencies<DenseBiAdjacencyList>>::of(&g, a), vec![]);
    assert_eq!(<InAdjacencies as Adjacencies<DenseBiAdjacencyList>>::from(&g, e), b);
    assert_eq!(<InAdjacencies as Adjacencies<DenseBiAdjacencyList>>::to(&g, e), a);
    assert_eq!(g.order(), 2);
    assert_eq!(g.size(), 1);
    assert_eq!(g.out_degree(a), 1);
    assert_eq!(g.in_degree(a), 0);
    assert_eq!(g.out_edges(a), vec![e]);
    assert_eq!(g.in_edges(b), vec![e]);
}

#[test]
fn unreached_is_the_default_mark() {
    assert_eq!(DepthFirstVisited::default(), DepthFirstVisited::No);
}

#[test]
fn distances_rank_by_cost_and_remember_the_edge() {
    let near: TestDistance<u64, u8> = TestDistance::new(3);
    let far = near.plus(TestCost(4, 9));
    assert_eq!(far.cost, 7);
    assert_eq!(far.pred, Some(9));
    assert!(near.at_most(&far));
    assert!(!far.at_most(&near));
    let twin = TestDistance { cost: 7u64, pred: Some(1u8) };
    assert!(far.at_most(&twin) && twin.at_most(&far));
    assert!(3u32.at_most(&3) && 3u32.at_most(&4) && !4u32.at_most(&3));
    assert!(3usize.at_most(&4) && !4u64.at_most(&3));
}

#[test]
fn sums_that_do_not_fit_stay_at_the_largest_value() {
    assert_eq!(5u32.plus(6), 11);
    assert_eq!((u32::MAX - 1).plus(1), u32::MAX);
    assert_eq!((u32::MAX - 1).plus(2), u32::MAX);
    assert_eq!(u64::MAX.plus(u64::MAX), u64::MAX);
    assert_eq!(7u64.plus(8), 15);
    assert_eq!(usize::MAX.plus(1), usize::MAX);
    assert_eq!(1usize.plus(1), 2);
}
