//! Directed graphs in several interchangeable representations, with
//! algorithms that are written once against capability traits.
//!
//! | Type                        | `InsertGraph` | `OutGraph` | `InGraph` | `remove_vert` | `remove_edge` |
//! |----------------------------:|:-------------:|:----------:|:---------:|:-------------:|:-------------:|
//! | `DenseEdgeList`             | **Yes**       | No         | No        | No            | No            |
//! | `DenseInAdjacencyList`      | **Yes**       | No         | **Yes**   | No            | No            |
//! | `DenseOutAdjacencyList`     | **Yes**       | **Yes**    | No        | No            | No            |
//! | `DenseBiAdjacencyList`      | **Yes**       | **Yes**    | **Yes**   | No            | No            |
//! | `ImmutableInAdjacencyList`  | No            | No         | **Yes**   | No            | No            |
//! | `ImmutableOutAdjacencyList` | No            | **Yes**    | No        | No            | No            |
//! | `SparseEdgeList`            | **Yes**       | No         | No        | No            | **Yes**       |
//! | `SparseInAdjacencyList`     | **Yes**       | No         | **Yes**   | No            | **Yes**       |
//! | `SparseOutAdjacencyList`    | **Yes**       | **Yes**    | No        | No            | **Yes**       |
//! | `SparseBiAdjacencyList`     | **Yes**       | **Yes**    | **Yes**   | **Yes**       | **Yes**       |
//!
//! A pair of graphs is their tensor product, with the capabilities that both
//! factors have.

pub mod adjacencies;
pub mod binary_heap;
pub mod depth_first;
pub mod digraph;
pub mod dijkstra;
pub mod homomorphism;
pub mod in_graph;
pub mod insert_graph;
pub mod map;
pub mod model;
pub mod out_graph;
pub mod priority;
pub mod seq_facts;
pub mod test_distance;

pub use adjacencies::{Adjacencies, InAdjacencies, OutAdjacencies};
pub use binary_heap::BinaryHeap;
pub use depth_first::{DepthFirst, DepthFirstEvent, DepthFirstVisited};
pub use digraph::{Digraph, EdgeMaps, ExactOrderDigraph, ExactSizeDigraph, VertMaps};
pub use homomorphism::{Homomorphism, Isomorphic};
pub use in_graph::{ExactInDegreeDigraph, InGraph, InSearch};
pub use insert_graph::InsertGraph;
pub use map::{MapGet, MapMut, Unwrap};
pub use model::dense_bi_adjacency_list::DenseBiAdjacencyList;
pub use model::dense_edge_list::DenseEdgeList;
pub use model::dense_in_adjacency_list::DenseInAdjacencyList;
pub use model::dense_out_adjacency_list::DenseOutAdjacencyList;
pub use model::immutable_in_adjacency_list::ImmutableInAdjacencyList;
pub use model::immutable_out_adjacency_list::ImmutableOutAdjacencyList;
pub use model::index::Index;
pub use model::isomorphic_from::IsomorphicFrom;
pub use model::key::{DenseEdge, DenseVert, SparseEdge, SparseVert};
pub use model::sparse_bi_adjacency_list::SparseBiAdjacencyList;
pub use model::sparse_edge_list::SparseEdgeList;
pub use model::sparse_in_adjacency_list::SparseInAdjacencyList;
pub use model::sparse_out_adjacency_list::SparseOutAdjacencyList;
pub use out_graph::{ExactOutDegreeDigraph, OutGraph, OutSearch};
pub use priority::{Distance, Priority};
