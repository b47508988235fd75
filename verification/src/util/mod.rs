pub mod attstring;
pub mod cyclic;
pub mod lexicographic;
pub mod segment_file;
pub mod sorting;
pub mod strings;
pub mod tree_traversal;
pub mod trie;
