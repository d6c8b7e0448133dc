pub mod binary_tree;
pub mod merkle_tree;
pub mod general_tree_raw;
pub mod ring_buffer;
pub mod graph_search;
pub mod graph;
pub mod single_linked_list;
pub mod single_linked_list_raw;
