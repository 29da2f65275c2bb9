//! Verified data structures and algorithms. The centre is a red-black tree
//! map (`rb_tree`); the other modules are smaller companions.

pub mod array;
pub mod avl_tree;
pub mod binary_heap;
pub mod binary_indexed_tree;
pub mod binary_search;
pub mod binary_search_tree;
pub mod binary_tree;
pub mod bitset;
pub mod cartesian_tree;
pub mod crc32;
pub mod disjoint_set;
pub mod graph_shortest_path;
pub mod josephus;
pub mod kmp;
pub mod linked_list_box;
pub mod linked_list_rc;
pub mod linked_list_refcell;
pub mod rb_tree;
pub mod sorting;
pub mod sparse_table;
pub mod trie;
