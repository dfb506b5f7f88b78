//! Exercises in data structures and algorithms, centred on a hash map that
//! grows by incremental rehashing.

pub mod hashing;
pub mod text;
pub mod bucket_list;
pub mod hmap;
pub mod dynamic_programming;
pub mod id_generator;
pub mod linked_list;
pub mod binary_tree;
pub mod balanced_binary_tree;
pub mod sorting;
pub mod huffman_coding;
pub mod blob;
pub mod data_store;
pub mod blob_store;
pub mod route_structure;
pub mod graph_representations;
pub mod graph;
pub mod doubly_linked_list;
pub mod skip_list;
