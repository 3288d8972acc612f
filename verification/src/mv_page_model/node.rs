use vstd::prelude::*;
use crate::mv_page_model::internal_page::InternalPage;
use crate::mv_page_model::leaf_page::LeafPage;

verus! {

/// The content of a block: a leaf page of records or an index page of child
/// references.
pub enum Node<const FAN_OUT: usize, const NUM_RECORDS: usize, P> {
    Leaf(LeafPage<NUM_RECORDS, P>),
    Index(InternalPage<FAN_OUT>),
}

impl<const FAN_OUT: usize, const NUM_RECORDS: usize, P: Copy> Node<FAN_OUT, NUM_RECORDS, P> {
    pub open spec fn wf(self) -> bool {
        match self {
            Node::Leaf(l) => l.wf(),
            Node::Index(i) => i.wf(),
        }
    }

    /// An empty leaf node.
    pub fn new_leaf() -> (r: Self)
        requires
            NUM_RECORDS < 0x10000,
        ensures
            r.wf(),
            r matches Node::Leaf(l) && l.slots@.len() == 0 && l.spec_active() == 0 && l.spec_dead() == 0,
    {
        Node::Leaf(LeafPage::new())
    }

    /// An empty index node.
    pub fn new_internal() -> (r: Self)
        ensures
            r.wf(),
            r matches Node::Index(i) && i.spec_len() == 0,
    {
        Node::Index(InternalPage::new())
    }

    pub fn is_leaf(&self) -> (r: bool)
        ensures
            r == self is Leaf,
    {
        match self {
            Node::Leaf(_) => true,
            Node::Index(_) => false,
        }
    }
}

} // verus!
