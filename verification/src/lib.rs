pub mod fib;
pub mod data_structures;
pub mod binary_tree_raw;
pub mod basic;
pub mod stack;
pub mod helpers;
pub mod heap;
pub mod sorts;
pub mod general_tree;
pub mod double_linked_list_raw;
pub mod double_linked_list;
pub mod graph_raw;
pub mod mem_pool;
pub mod design_patterns;
pub mod hash_map;
pub mod n_queen;
pub mod bits;
pub mod advance;
pub mod error_framework;
pub mod my_container;
pub mod my_container2;
pub mod text;
pub mod error_raw;
pub mod custom_allocator;
pub mod deref;
