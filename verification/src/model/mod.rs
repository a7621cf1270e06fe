pub mod dense;
pub mod dense_bi_adjacency_list;
pub mod dense_edge_list;
pub mod dense_in_adjacency_list;
pub mod dense_out_adjacency_list;
pub mod immutable_in_adjacency_list;
pub mod immutable_out_adjacency_list;
pub mod index;
pub mod isomorphic_from;
pub mod key;
pub mod sparse;
pub mod sparse_bi_adjacency_list;
pub mod sparse_edge_list;
pub mod sparse_in_adjacency_list;
pub mod sparse_out_adjacency_list;
pub mod tensor_product;
