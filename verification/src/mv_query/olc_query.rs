use vstd::prelude::*;
use crate::mv_block::block::Block;
use crate::mv_page_model::internal_page::InternalPage;
use crate::mv_page_model::node::Node;
use crate::mv_page_model::BlockID;
use crate::mv_query::time_matcher::TimeMatcher;
use crate::mv_record_model::record_point::Key;
use crate::mv_tree::mvtree::{lemma_write_entry, write_entry, MVTreeSt};
use crate::mv_tree::smo::{block_degree, is_candidate, root_degree, BlockUnsafeDegree, BLOCK_LIMIT};
use crate::mv_query::time_matcher::OBSOLETE_VERSION_MARK;
use crate::mv_block::block::Block as TreeBlock;
use crate::mv_tree::visibility::write_route;

verus! {

/// The most steps (descents and reorganisations) a random writer takes on its way
/// to a leaf.
pub const WRITE_STEPS_MAX: u32 = 0x10000;

/// The entry of index page `page` a writer of `key` follows: the last active
/// one whose fence holds the key.
pub fn write_entry_of<const FAN_OUT: usize>(page: &InternalPage<FAN_OUT>, key: Key) -> (r: Option<usize>)
    requires
        page.wf(),
    ensures
        r matches Some(i) ==> write_entry(*page, key, page.spec_len()) == Some(i as int),
        r is None ==> write_entry(*page, key, page.spec_len()) is None,
{
    let n = page.version_region.len();
    let mut i = n;
    while i > 0
        invariant
            i <= n,
            n == page.spec_len(),
            page.wf(),
            write_entry(*page, key, n as int) == write_entry(*page, key, i as int),
        decreases i,
    {
        let v = page.version_region[i - 1];
        let fence = page.key_interval_region[i - 1];
        if v.is_active() && fence.contains(key) {
            return Some(i - 1);
        }
        i = i - 1;
    }
    None
}

/// From block `b`, a writer of `key` goes down, within `fuel` index levels,
/// to a leaf through children that need no reorganisation.
pub open spec fn write_descent_safe<const FAN_OUT: usize, const NUM_RECORDS: usize, P: Copy>(
    blocks: Seq<TreeBlock<FAN_OUT, NUM_RECORDS, P>>,
    b: int,
    key: Key,
    fuel: nat,
) -> bool
    decreases fuel,
{
    &&& 0 <= b < blocks.len()
    &&& match blocks[b].node_data {
        Node::Leaf(_) => true,
        Node::Index(page) => fuel > 0 && match write_entry(page, key, page.spec_len()) {
            None => false,
            Some(j) => {
                &&& block_degree(blocks[page.pointer_region@[j] as int]) == BlockUnsafeDegree::Safe
                &&& write_descent_safe(blocks, page.pointer_region@[j] as int, key, (fuel - 1) as nat)
            },
        },
    }
}

/// A route ends at a block of the tree.
pub proof fn lemma_route_in_range<const FAN_OUT: usize, const NUM_RECORDS: usize, P: Copy>(
    blocks: Seq<TreeBlock<FAN_OUT, NUM_RECORDS, P>>,
    b: int,
    key: Key,
    fuel: nat,
)
    ensures
        write_route(blocks, b, key, fuel) matches Some(l) ==> 0 <= l < blocks.len() && blocks[l].node_data is Leaf,
    decreases fuel,
{
    if 0 <= b < blocks.len() {
        match blocks[b].node_data {
            Node::Leaf(_) => {},
            Node::Index(page) => {
                if fuel > 0 {
                    if let Some(j) = write_entry(page, key, page.spec_len()) {
                        lemma_route_in_range(blocks, page.pointer_region@[j] as int, key, (fuel - 1) as nat);
                    }
                }
            },
        }
    }
}

/// A safe descent ends at a leaf, which is the start block or a safe child.
pub proof fn lemma_descent_leaf<const FAN_OUT: usize, const NUM_RECORDS: usize, P: Copy>(
    blocks: Seq<TreeBlock<FAN_OUT, NUM_RECORDS, P>>,
    b: int,
    key: Key,
    fuel: nat,
)
    requires
        write_descent_safe(blocks, b, key, fuel),
    ensures
        write_route(blocks, b, key, fuel) matches Some(l) && 0 <= l < blocks.len() && blocks[l].node_data is Leaf
            && (l == b || block_degree(blocks[l]) == BlockUnsafeDegree::Safe),
    decreases fuel,
{
    match blocks[b].node_data {
        Node::Leaf(_) => {},
        Node::Index(page) => {
            let j = write_entry(page, key, page.spec_len())->Some_0;
            lemma_descent_leaf(blocks, page.pointer_region@[j] as int, key, (fuel - 1) as nat);
        },
    }
}

impl<const FAN_OUT: usize, const NUM_RECORDS: usize, P: Copy> MVTreeSt<FAN_OUT, NUM_RECORDS, P> {
    /// A write of `key` needs no reorganisation: the newest root and every
    /// block on the writer's way down to the key's leaf are safe, and neither
    /// blocks nor commit versions are exhausted. This holds on trees of any
    /// height; a writable leaf root is the case of height one.
    pub open spec fn key_writable(self, key: Key) -> bool {
        let h = self.root.history()[self.root.head()].payload;
        &&& root_degree(self.blocks@[h.0 as int]) == BlockUnsafeDegree::Safe
        &&& write_descent_safe(self.blocks@, h.0 as int, key, h.1 as nat)
        &&& self.blocks@.len() < BLOCK_LIMIT
        &&& self.global_clock.0 < OBSOLETE_VERSION_MARK - 1
    }

    /// The leaf a writer of `key` reaches from the newest root without
    /// reorganising anything; `None` when an index page on the way has no
    /// entry for the key.
    pub fn write_leaf_of(&self, key: Key) -> (r: Option<BlockID>)
        requires
            self.wf(),
        ensures
            ({
                let h = self.root.history()[self.root.head()].payload;
                &&& r matches Some(b) ==> write_route(self.blocks@, h.0 as int, key, h.1 as nat) == Some(b as int)
                &&& r is None ==> write_route(self.blocks@, h.0 as int, key, h.1 as nat) is None
            }),
    {
        let (inner, _v) = self.root.current_root();
        let mut cursor = inner.block();
        let mut fuel = inner.height();
        proof {
            assert(self.root.history()[self.root.head()] == self.root.history()[self.root.head()]);
        }
        loop
            invariant
                self.wf(),
                cursor < self.blocks@.len(),
                ({
                    let h = self.root.history()[self.root.head()].payload;
                    write_route(self.blocks@, h.0 as int, key, h.1 as nat)
                        == write_route(self.blocks@, cursor as int, key, fuel as nat)
                }),
            decreases fuel,
        {
            let _n = self.blocks.len();
            let blk = &self.blocks[cursor as usize];
            proof {
                assert(self.blocks@[cursor as int] == *blk);
                assert(self.block_ok(cursor as int));
            }
            match &blk.node_data {
                Node::Leaf(_) => {
                    return Some(cursor);
                },
                Node::Index(page) => {
                    if fuel == 0 {
                        return None;
                    }
                    match write_entry_of(page, key) {
                        None => {
                            return None;
                        },
                        Some(i) => {
                            proof {
                                lemma_write_entry(*page, key, page.spec_len());
                            }
                            cursor = page.get_pointer(i);
                            fuel = fuel - 1;
                        },
                    }
                },
            }
        }
    }

    /// A writable leaf root makes every key writable.
    pub proof fn lemma_leaf_root_key_writable(self, key: Key)
        requires
            self.wf(),
            self.leaf_root_writable(),
        ensures
            self.key_writable(key),
    {
        let h = self.root.history()[self.root.head()].payload;
        assert(self.root.history()[self.root.head()] == self.root.history()[self.root.head()]);
        assert(h.0 < self.blocks@.len());
    }

    /// Index block `c` stops a writer of `key`: it has no active entry whose
    /// fence holds the key, or the child that entry points to needs a
    /// reorganisation and the page has no room for the entries it adds, or the
    /// child is sparse and the page has no sibling to merge it with.
    pub open spec fn stops_writer(self, c: int, key: Key) -> bool {
        &&& self.blocks@[c].node_data matches Node::Index(page)
        &&& match write_entry(page, key, page.spec_len()) {
            None => true,
            Some(j) => match block_degree(self.blocks@[page.pointer_region@[j] as int]) {
                BlockUnsafeDegree::Safe => false,
                BlockUnsafeDegree::Overflow => page.spec_len() + 2 > FAN_OUT,
                BlockUnsafeDegree::ActiveUnderflow => page.spec_len() + 2 > FAN_OUT || !(exists|s: int|
                    is_candidate(page, j, s)),
            },
        }
    }

    /// Why a writer of `key` cannot reach its leaf: blocks or commit versions
    /// are exhausted, the newest root needs a reorganisation that cannot be
    /// made, or a block on the writer's way down from the newest root stops
    /// it.
    pub open spec fn write_blocked(self, key: Key) -> bool {
        let h = self.root.history()[self.root.head()].payload;
        ||| self.blocks@.len() >= BLOCK_LIMIT
        ||| self.global_clock.0 >= OBSOLETE_VERSION_MARK - 1
        ||| root_degree(self.blocks@[h.0 as int]) != BlockUnsafeDegree::Safe && !self.root_reorg_ok()
        ||| exists|path: Seq<int>| #[trigger] self.write_path(path, key) && path[0] == h.0 && self.stops_writer(
            path.last(),
            key,
        )
    }

    /// The leaf a writer of `key` works on. From the newest root (reorganised
    /// first when needed), the writer follows the last active entry whose fence
    /// holds the key; a child that is full is split and a sparse one merged with
    /// a sibling before the writer looks at the page again. `None` exactly when
    /// the writer is blocked (`write_blocked`): no entry for the key, no room
    /// or no sibling for a reorganisation, or blocks or versions exhausted.
    #[verifier::spinoff_prover]
    pub fn traversal_write(&mut self, key: Key) -> (r: Option<BlockID>)
        requires
            old(self).wf(),
        ensures
            final(self).gc_mode() == old(self).gc_mode(),
            final(self).wf(),
            final(self).global_clock.0 >= old(self).global_clock.0,
            old(self).evolves_to(*final(self), old(self).global_clock.0),
            old(self).version_inv() ==> final(self).version_inv(),
            r matches Some(b) ==> b < final(self).blocks@.len() && final(self).blocks@[b as int].node_data is Leaf,
            r matches Some(b) ==> ({
                let h = final(self).root.history()[final(self).root.head()].payload;
                write_route(final(self).blocks@, h.0 as int, key, h.1 as nat) == Some(b as int)
            }),
            old(self).leaf_root_writable() ==> {
                &&& r == Some(old(self).head_root_block() as u64)
                &&& *final(self) == *old(self)
            },
            old(self).key_writable(key) ==> r is Some && *final(self) == *old(self),
            r is None ==> final(self).write_blocked(key),
    {
        let ghost leaf_root = old(self).leaf_root_writable();
        let ghost kw = old(self).key_writable(key);
        proof {
            let h = old(self).root.history()[old(self).root.head()].payload;
            assert(old(self).root.history()[old(self).root.head()] == old(self).root.history()[old(self).root.head()]);
            assert(old(self).levels@[h.0 as int] == h.1);
        }
        let mut cursor = match self.retrieve_root_write() {
            Some(b) => b,
            None => {
                proof {
                    let h = self.root.history()[self.root.head()].payload;
                    assert(self.head_root_block() == h.0);
                }
                return None;
            },
        };
        let ghost root_b = cursor as int;
        let ghost mut path: Seq<int> = seq![cursor as int];
        proof {
            assert(self.root.history()[self.root.head()] == self.root.history()[self.root.head()]);
        }
        loop
            invariant
                self.wf(),
                cursor < self.blocks@.len(),
                self.global_clock.0 >= old(self).global_clock.0,
                self.gc_mode() == old(self).gc_mode(),
                old(self).evolves_to(*self, old(self).global_clock.0),
                old(self).version_inv() ==> self.version_inv(),
                self.write_path(path, key),
                path.last() == cursor,
                path[0] == root_b,
                self.root.history()[self.root.head()].payload.0 == root_b,
                leaf_root == old(self).leaf_root_writable(),
                leaf_root ==> {
                    &&& *self == *old(self)
                    &&& cursor == old(self).head_root_block()
                },
                kw == old(self).key_writable(key),
                kw ==> {
                    &&& *self == *old(self)
                    &&& write_descent_safe(self.blocks@, cursor as int, key, self.levels@[cursor as int] as nat)
                },
            decreases u64::MAX - self.blocks@.len(), self.levels@[cursor as int],
        {
            let n = self.blocks.len();
            if n as u64 >= BLOCK_LIMIT {
                return None;
            }
            let blk = &self.blocks[cursor as usize];
            proof {
                assert(self.blocks@[cursor as int] == *blk);
                assert(self.block_ok(cursor as int));
            }
            let (index, child, len) = match &blk.node_data {
                Node::Leaf(_) => {
                    proof {
                        self.lemma_write_path_route(path, key);
                        let h = self.root.history()[self.root.head()].payload;
                        assert(self.root.history()[self.root.head()] == self.root.history()[self.root.head()]);
                        assert(self.levels@[h.0 as int] == h.1);
                    }
                    return Some(cursor);
                },
                Node::Index(page) => {
                    match write_entry_of(page, key) {
                        None => {
                            return None;
                        },
                        Some(i) => {
                            proof {
                                lemma_write_entry(*page, key, page.spec_len());
                            }
                            (i, page.get_pointer(i), page.version_region.len())
                        },
                    }
                },
            };
            let cblk = &self.blocks[child as usize];
            proof {
                assert(self.blocks@[child as int] == *cblk);
                assert(self.block_ok(child as int));
            }
            let ghost pre = *self;
            match cblk.degree() {
                BlockUnsafeDegree::Overflow => {
                    if len + 2 > FAN_OUT {
                        return None;
                    }
                    let done = self.on_overflow_node(cursor, index);
                    proof {
                        old(self).lemma_evolves_trans(pre, *self, old(self).global_clock.0, pre.global_clock.0, old(self).global_clock.0);
                        if done.is_some() {
                            pre.lemma_write_path_keep(*self, path, key);
                        }
                    }
                    if done.is_none() {
                        return None;
                    }
                },
                BlockUnsafeDegree::ActiveUnderflow => {
                    if len + 2 > FAN_OUT {
                        return None;
                    }
                    let done = self.on_underflow_node(cursor, index);
                    proof {
                        old(self).lemma_evolves_trans(pre, *self, old(self).global_clock.0, pre.global_clock.0, old(self).global_clock.0);
                        if done.is_some() {
                            pre.lemma_write_path_keep(*self, path, key);
                        }
                    }
                    if done.is_none() {
                        return None;
                    }
                },
                BlockUnsafeDegree::Safe => {
                    proof {
                        let old_path = path;
                        path = path.push(child as int);
                        assert forall|i: int| 0 <= i < path.len() implies {
                            &&& 0 <= #[trigger] path[i] < self.blocks@.len()
                            &&& self.levels@[path[i]] + i == self.levels@[path[0]]
                        } by {
                            if i < old_path.len() {
                                assert(path[i] == old_path[i]);
                            }
                        }
                        assert forall|i: int| #![trigger self.blocks@[path[i]]] 0 <= i < path.len() - 1 implies {
                            &&& self.blocks@[path[i]].node_data matches Node::Index(p)
                            &&& write_entry(p, key, p.spec_len()) matches Some(j)
                            &&& p.pointer_region@[j] == path[i + 1]
                        } by {
                            assert(path[i] == old_path[i]);
                            if i < old_path.len() - 1 {
                                assert(path[i + 1] == old_path[i + 1]);
                                assert(self.blocks@[old_path[i]] == self.blocks@[old_path[i]]);
                            }
                        }
                    }
                    cursor = child;
                },
            }
        }
    }
}

} // verus!
