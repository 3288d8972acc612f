use vstd::prelude::*;
use crate::mv_block::block_handle::BlockAllocManager;
use crate::mv_page_model::internal_page::count_active;
use crate::mv_page_model::leaf_page::LeafPage;
use crate::mv_page_model::node::Node;
use crate::mv_tree::smo::BlockUnsafeDegree;

verus! {

/// A block of the tree: one node, leaf or index.
pub struct Block<const FAN_OUT: usize, const NUM_RECORDS: usize, P> {
    pub node_data: Node<FAN_OUT, NUM_RECORDS, P>,
}

/// Live entries of a node: the live counter of a leaf, the entries of an
/// index page that carry no obsolete mark.
pub open spec fn node_active<const FAN_OUT: usize, const NUM_RECORDS: usize, P: Copy>(
    n: Node<FAN_OUT, NUM_RECORDS, P>,
) -> int {
    match n {
        Node::Leaf(l) => l.spec_active(),
        Node::Index(i) => count_active(i.version_region@) as int,
    }
}

/// All entries (live and dead) of a node.
pub open spec fn node_len<const FAN_OUT: usize, const NUM_RECORDS: usize, P: Copy>(
    n: Node<FAN_OUT, NUM_RECORDS, P>,
) -> int {
    match n {
        Node::Leaf(l) => l.committed_len(),
        Node::Index(i) => i.spec_len(),
    }
}

/// The page geometry the tree relies on: page sizes fit the 16-bit counters,
/// a leaf has room for at least one record and an index page for two entries.
pub open spec fn geometry_ok(fan_out: usize, num_records: usize) -> bool {
    2 <= fan_out < 0x10000 && 1 <= num_records < 0x10000
}

impl<const FAN_OUT: usize, const NUM_RECORDS: usize, P: Copy> Block<FAN_OUT, NUM_RECORDS, P> {
    pub open spec fn wf(self) -> bool {
        &&& geometry_ok(FAN_OUT, NUM_RECORDS)
        &&& self.node_data.wf()
    }

    pub open spec fn spec_max_units(is_leaf: bool) -> int {
        if is_leaf { NUM_RECORDS as int } else { FAN_OUT as int }
    }

    /// A block holding an empty leaf.
    pub fn default() -> (r: Self)
        requires
            geometry_ok(FAN_OUT, NUM_RECORDS),
        ensures
            r.wf(),
            r.node_data is Leaf,
            node_len(r.node_data) == 0,
    {
        Block { node_data: Node::new_leaf() }
    }

    pub fn is_leaf(&self) -> (r: bool)
        ensures
            r == self.node_data is Leaf,
    {
        self.node_data.is_leaf()
    }

    /// Capacity of a leaf (in records) or of an index page (in entries).
    pub fn max_units(&self, is_leaf: bool) -> (r: usize)
        ensures
            r == Self::spec_max_units(is_leaf),
    {
        if is_leaf {
            BlockAllocManager::<FAN_OUT, NUM_RECORDS>::max_records()
        } else {
            BlockAllocManager::<FAN_OUT, NUM_RECORDS>::max_keys()
        }
    }

    /// 40 % of the capacity, rounded up.
    pub fn filling_40_percent(&self, is_leaf: bool) -> (r: usize)
        requires
            geometry_ok(FAN_OUT, NUM_RECORDS),
        ensures
            r == (2 * Self::spec_max_units(is_leaf) + 4) / 5,
    {
        (2 * self.max_units(is_leaf) + 4) / 5
    }

    /// 80 % of the capacity, rounded up.
    pub fn filling_80_percent(&self, is_leaf: bool) -> (r: usize)
        requires
            geometry_ok(FAN_OUT, NUM_RECORDS),
        ensures
            r == (4 * Self::spec_max_units(is_leaf) + 4) / 5,
    {
        (4 * self.max_units(is_leaf) + 4) / 5
    }

    /// 20 % of the capacity, rounded up.
    pub fn filling_20_percent(&self, is_leaf: bool) -> (r: usize)
        requires
            geometry_ok(FAN_OUT, NUM_RECORDS),
        ensures
            r == (Self::spec_max_units(is_leaf) + 4) / 5,
    {
        (self.max_units(is_leaf) + 4) / 5
    }

    /// Fewest live entries a node of this kind should keep (20 %, rounded down).
    pub fn min_active_units(&self) -> (r: usize)
        ensures
            r == Self::spec_max_units(self.node_data is Leaf) / 5,
    {
        if self.is_leaf() {
            BlockAllocManager::<FAN_OUT, NUM_RECORDS>::max_records() / 5
        } else {
            BlockAllocManager::<FAN_OUT, NUM_RECORDS>::max_keys() / 5
        }
    }

    /// Most live entries a node of this kind should keep (four times the minimum).
    pub fn max_active_units(&self) -> (r: usize)
        requires
            geometry_ok(FAN_OUT, NUM_RECORDS),
        ensures
            r == 4 * (Self::spec_max_units(self.node_data is Leaf) / 5),
    {
        self.min_active_units() * 4
    }

    /// Entries (live and dead) at which a node of this kind counts as full.
    pub fn max_units_safe(&self) -> (r: usize)
        requires
            geometry_ok(FAN_OUT, NUM_RECORDS),
        ensures
            r == if self.node_data is Leaf { NUM_RECORDS as int } else { FAN_OUT - 1 },
    {
        if self.is_leaf() {
            BlockAllocManager::<FAN_OUT, NUM_RECORDS>::max_records()
        } else {
            BlockAllocManager::<FAN_OUT, NUM_RECORDS>::overflow_keys_count()
        }
    }

    /// Live and dead entries of the node.
    pub fn active_dead(&self) -> (r: (usize, usize))
        requires
            self.wf(),
        ensures
            r.0 == node_active(self.node_data),
            r.0 + r.1 == node_len(self.node_data),
    {
        match &self.node_data {
            Node::Leaf(l) => {
                let (a, d) = l.active_dead_count();
                (a as usize, d as usize)
            },
            Node::Index(i) => {
                let n = i.version_region.len();
                proof {
                    assert(i.version_region@.take(n as int) =~= i.version_region@);
                }
                i.active_dead(n)
            },
        }
    }

    /// Live entries of the node.
    pub fn active_count(&self) -> (r: usize)
        requires
            self.wf(),
        ensures
            r == node_active(self.node_data),
    {
        self.active_dead().0
    }

    /// Whether the node has to be reorganised: too many live or total entries
    /// (overflow), or too few live ones (underflow).
    pub fn unsafe_degree(&self) -> (r: BlockUnsafeDegree)
        requires
            self.wf(),
        ensures
            r == if node_active(self.node_data) > 4 * (Self::spec_max_units(self.node_data is Leaf) / 5)
                || node_len(self.node_data) >= (if self.node_data is Leaf { NUM_RECORDS as int } else { FAN_OUT - 1 }) {
                BlockUnsafeDegree::Overflow
            } else if node_active(self.node_data) < Self::spec_max_units(self.node_data is Leaf) / 5 {
                BlockUnsafeDegree::ActiveUnderflow
            } else {
                BlockUnsafeDegree::Safe
            },
    {
        let (active, dead) = self.active_dead();
        if active > self.max_active_units() || active + dead >= self.max_units_safe() {
            BlockUnsafeDegree::Overflow
        } else if active < self.min_active_units() {
            BlockUnsafeDegree::ActiveUnderflow
        } else {
            BlockUnsafeDegree::Safe
        }
    }
}

} // verus!
