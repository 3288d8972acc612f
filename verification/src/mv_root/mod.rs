pub mod frugal_root;
pub mod index_root;
pub mod tree_root;
