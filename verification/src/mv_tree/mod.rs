pub mod mvbplus_tree;
pub mod mvtree;
pub mod root;
pub mod smo;
pub mod snapshot;
pub mod visibility;
