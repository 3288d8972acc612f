use vstd::prelude::*;
use crate::mv_page_model::{BlockID, Height};
use crate::mv_tree::root::INIT_TREE_HEIGHT;

verus! {

/// What a root history stores per version: the root block and the height of
/// the tree below it.
#[derive(Clone, Copy, PartialEq, Eq, Structural)]
pub struct ValueRootInner(pub BlockID, pub Height);

impl ValueRootInner {
    /// The root of a fresh tree: a single leaf.
    pub fn initial(block: BlockID) -> (r: Self)
        ensures
            r == ValueRootInner(block, INIT_TREE_HEIGHT),
    {
        ValueRootInner(block, INIT_TREE_HEIGHT)
    }

    pub fn from(block: BlockID, height: Height) -> (r: Self)
        ensures
            r == ValueRootInner(block, height),
    {
        ValueRootInner(block, height)
    }

    pub fn block(&self) -> (r: BlockID)
        ensures
            r == self.0,
    {
        self.0
    }

    pub fn height(&self) -> (r: Height)
        ensures
            r == self.1,
    {
        self.1
    }
}

} // verus!
