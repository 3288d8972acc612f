use vstd::prelude::*;
use crate::mv_page_model::{BlockID, Height};
use crate::mv_record_model::version_info::Version;

verus! {

/// Height of a tree that is a single leaf.
pub const INIT_TREE_HEIGHT: Height = 1;

/// Level of the root.
pub const LEVEL_ROOT: Height = 1;

/// A root of the tree: its block, the version from which it is the root, and
/// the height of the tree below it.
#[derive(Clone, Copy, PartialEq, Eq, Structural)]
pub struct Root {
    pub block: BlockID,
    pub version: Version,
    pub height: Height,
}

impl Root {
    pub fn new(block: BlockID, version: Version, height: Height) -> (r: Self)
        ensures
            r == (Root { block, version, height }),
    {
        Root { block, version, height }
    }

    pub fn block(&self) -> (r: BlockID)
        ensures
            r == self.block,
    {
        self.block
    }

    pub fn height(&self) -> (r: Height)
        ensures
            r == self.height,
    {
        self.height
    }

    pub fn version(&self) -> (r: Version)
        ensures
            r == self.version,
    {
        self.version
    }
}

} // verus!
