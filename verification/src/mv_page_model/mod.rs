pub mod internal_page;
pub mod leaf_page;
pub mod node;
pub mod record_history;

use vstd::prelude::*;

verus! {

/// Identifier of a block (a page slot of the tree).
pub type BlockID = u64;

/// Number of entries a page reports in its header.
pub type ObjectCount = u16;

/// Height of a tree (a single leaf has height 1).
pub type Height = u16;

/// Number of attempts a latch acquisition has made.
pub type Attempts = u32;

} // verus!
