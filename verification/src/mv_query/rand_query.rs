use vstd::prelude::*;
use crate::mv_page_model::internal_page::{count_active, InternalPage};
use crate::mv_page_model::node::Node;
use crate::mv_page_model::leaf_page::{last_index_of_key, lemma_last_index_of_key, LeafPage};
use crate::mv_record_model::record_point::Key;
use crate::mv_page_model::{Attempts, BlockID};
use crate::mv_query::time_matcher::{spec_obsolete, TimeMatcher};
use crate::mv_query::olc_query::WRITE_STEPS_MAX;
use crate::mv_tree::mvtree::MVTreeSt;
use crate::mv_tree::smo::{BlockUnsafeDegree, BLOCK_LIMIT};
use crate::mv_utils::interval::Interval;
use crate::mv_block::block::Block;

verus! {

/// How many random keys an insert of a random key tries in its leaf.
pub const RAND_ATTEMPTS_MAX: Attempts = 10;

/// `rand::random_range` over `lo..=hi` on the thread generator: the crate
/// documents a value in the range (and a panic on an empty range, which
/// `requires` excludes). Which value is left to chance.
#[verifier::external_body]
pub(crate) fn random_in(lo: u64, hi: u64) -> (r: u64)
    requires
        lo <= hi,
    ensures
        lo <= r <= hi,
{
    rand::random_range(lo..=hi)
}

/// Position of the `n`-th (from 0) active entry of `page`; `None` when the
/// page has at most `n` active entries.
pub fn nth_active<const FAN_OUT: usize>(page: &InternalPage<FAN_OUT>, n: usize) -> (r: Option<usize>)
    requires
        page.wf(),
    ensures
        r matches Some(i) ==> i < page.spec_len() && !spec_obsolete(page.version_region@[i as int])
            && count_active(page.version_region@.take(i as int)) == n,
        r is None ==> count_active(page.version_region@) <= n,
{
    let len = page.version_region.len();
    let mut left = n;
    let mut i: usize = 0;
    proof {
        assert(page.version_region@.take(0) =~= Seq::<u64>::empty());
    }
    while i < len
        invariant
            i <= len,
            len == page.spec_len(),
            page.wf(),
            left <= n,
            count_active(page.version_region@.take(i as int)) + left == n,
        decreases len - i,
    {
        proof {
            assert(page.version_region@.take(i + 1).drop_last() =~= page.version_region@.take(i as int));
        }
        if page.version_region[i].is_active() {
            if left == 0 {
                return Some(i);
            }
            left = left - 1;
        }
        i = i + 1;
    }
    proof {
        assert(page.version_region@.take(len as int) =~= page.version_region@);
    }
    None
}

/// Position of the newest committed record of `key` in leaf `l`.
pub fn newest_of_key<const NUM_RECORDS: usize, P: Copy>(l: &LeafPage<NUM_RECORDS, P>, key: Key) -> (r: Option<usize>)
    requires
        l.wf(),
    ensures
        r matches Some(i) ==> last_index_of_key(l.records(), key) == Some(i as int) && i < l.slots@.len(),
        r is None ==> last_index_of_key(l.records(), key) is None,
{
    let n = l.len();
    let mut i = n;
    proof {
        lemma_last_index_of_key(l.records(), key);
    }
    while i > 0
        invariant
            i <= n,
            n == l.committed_len(),
            l.wf(),
            forall|j: int| i <= j < n ==> l.records()[j].key != key,
        decreases i,
    {
        if l.slots[i - 1].key == key {
            proof {
                lemma_last_index_of_key(l.records(), key);
                assert(l.records()[i - 1] == l.slots@[i - 1]);
                let r = last_index_of_key(l.records(), key);
                if let Some(k) = r {
                    if k > i - 1 {
                        assert(l.records()[k].key == key);
                    } else if k < i - 1 {
                        assert(l.records()[i - 1].key == key);
                    }
                }
            }
            return Some(i - 1);
        }
        proof {
            assert(l.records()[i - 1] == l.slots@[i - 1]);
        }
        i = i - 1;
    }
    proof {
        lemma_last_index_of_key(l.records(), key);
        if let Some(k) = last_index_of_key(l.records(), key) {
            assert(l.records()[k].key == key);
        }
    }
    None
}

/// Entry `j` of index block `p` is active, has fence `f` and points to
/// block `b`.
pub open spec fn entry_leads_to<const FAN_OUT: usize, const NUM_RECORDS: usize, P>(
    blocks: Seq<Block<FAN_OUT, NUM_RECORDS, P>>,
    p: int,
    j: int,
    f: Interval,
    b: int,
) -> bool {
    &&& 0 <= p < blocks.len()
    &&& blocks[p].node_data matches Node::Index(page)
    &&& 0 <= j < page.spec_len()
    &&& page.pointer_region@[j] == b
    &&& page.key_interval_region@[j] == f
    &&& !spec_obsolete(page.version_region@[j])
}

impl<const FAN_OUT: usize, const NUM_RECORDS: usize, P: Copy> MVTreeSt<FAN_OUT, NUM_RECORDS, P> {
    /// Fence `f` is the one block `b` is reached under: the whole key range
    /// for the newest root, else the fence of an active entry of an index
    /// block one level up that points to `b`.
    pub open spec fn reached_under(self, f: Interval, b: int) -> bool {
        ||| b == self.head_root_block() && f == (Interval { lower: self.min_key, upper: self.max_key })
        ||| exists|p: int, j: int| #[trigger] entry_leads_to(self.blocks@, p, j, f, b) && self.levels@[p] == self.levels@[b] + 1
    }

    /// Reorganising block `b` (changing it and appending blocks) keeps the
    /// fence it is reached under.
    pub proof fn lemma_reached_under_keep(self, post: Self, f: Interval, b: int)
        requires
            self.reached_under(f, b),
            0 <= b < self.blocks@.len(),
            self.levels@.len() == self.blocks@.len(),
            post.levels@.len() == post.blocks@.len(),
            post.root == self.root,
            post.min_key == self.min_key,
            post.max_key == self.max_key,
            self.blocks@.len() <= post.blocks@.len(),
            post.levels@.take(self.blocks@.len() as int) == self.levels@,
            forall|x: int| 0 <= x < self.blocks@.len() && x != b ==> post.blocks@[x] == self.blocks@[x],
        ensures
            post.reached_under(f, b),
    {
        if !(b == self.head_root_block() && f == (Interval { lower: self.min_key, upper: self.max_key })) {
            let (p, j) = choose|p: int, j: int| #[trigger] entry_leads_to(self.blocks@, p, j, f, b)
                && self.levels@[p] == self.levels@[b] + 1;
            assert(p != b);
            assert(post.blocks@[p] == self.blocks@[p]);
            let n = self.blocks@.len() as int;
            assert(post.levels@.take(n)[p] == post.levels@[p]);
            assert(post.levels@.take(n)[b] == post.levels@[b]);
            assert(entry_leads_to(post.blocks@, p, j, f, b));
        }
    }

    /// A writer's way down along randomly chosen active entries: at each
    /// level one of the live entries is drawn; full or sparse children are
    /// reorganised first, as for a writer of a key. Returns the leaf and the
    /// fence of the entry that led to it (the whole key range for a leaf root).
    /// `None` when a page has no active entry, a reorganisation is not
    /// possible or the step budget is spent.
    pub fn traversal_write_rand_query(&mut self) -> (r: Option<(Interval, BlockID)>)
        requires
            old(self).wf(),
        ensures
            final(self).gc_mode() == old(self).gc_mode(),
            final(self).wf(),
            final(self).global_clock.0 >= old(self).global_clock.0,
            old(self).evolves_to(*final(self), old(self).global_clock.0),
            old(self).version_inv() ==> final(self).version_inv(),
            r matches Some((_, b)) ==> b < final(self).blocks@.len() && final(self).blocks@[b as int].node_data is Leaf,
            r matches Some((f, b)) ==> final(self).reached_under(f, b as int),
            old(self).leaf_root_writable() ==> {
                &&& r == Some((Interval { lower: old(self).min_key, upper: old(self).max_key }, old(self).head_root_block() as u64))
                &&& *final(self) == *old(self)
            },
    {
        let ghost leaf_root = old(self).leaf_root_writable();
        let mut cursor = match self.retrieve_root_write() {
            Some(b) => b,
            None => {
                return None;
            },
        };
        let mut curr_fence = Interval::new(self.min_key, self.max_key);
        let mut fuel: u32 = WRITE_STEPS_MAX;
        loop
            invariant
                self.wf(),
                cursor < self.blocks@.len(),
                self.global_clock.0 >= old(self).global_clock.0,
                self.gc_mode() == old(self).gc_mode(),
                old(self).evolves_to(*self, old(self).global_clock.0),
                old(self).version_inv() ==> self.version_inv(),
                leaf_root == old(self).leaf_root_writable(),
                self.reached_under(curr_fence, cursor as int),
                leaf_root ==> {
                    &&& *self == *old(self)
                    &&& cursor == old(self).head_root_block()
                    &&& fuel == WRITE_STEPS_MAX
                    &&& curr_fence == (Interval { lower: old(self).min_key, upper: old(self).max_key })
                },
            decreases fuel,
        {
            if fuel == 0 {
                return None;
            }
            fuel = fuel - 1;
            let n = self.blocks.len();
            if n as u64 >= BLOCK_LIMIT {
                return None;
            }
            let blk = &self.blocks[cursor as usize];
            proof {
                assert(self.blocks@[cursor as int] == *blk);
                assert(self.block_ok(cursor as int));
            }
            let live_n = blk.active_count();
            let draw = if live_n == 0 {
                0
            } else {
                random_in(0, (live_n - 1) as u64) as usize
            };
            let (index, child, len) = match &blk.node_data {
                Node::Leaf(_) => {
                    return Some((curr_fence, cursor));
                },
                Node::Index(page) => {
                    match nth_active(page, draw) {
                        None => {
                            return None;
                        },
                        Some(i) => (i, page.get_pointer(i), page.version_region.len()),
                    }
                },
            };
            let fence = match &self.blocks[cursor as usize].node_data {
                Node::Index(page) => page.get_key(index),
                Node::Leaf(_) => curr_fence,
            };
            let cblk = &self.blocks[child as usize];
            proof {
                assert(self.blocks@[child as int] == *cblk);
                assert(self.block_ok(child as int));
            }
            let ghost pre = *self;
            match cblk.degree() {
                BlockUnsafeDegree::Overflow => {
                    if len + 2 > FAN_OUT {
                        return None;
                    }
                    let done = self.on_overflow_node(cursor, index);
                    proof {
                        old(self).lemma_evolves_trans(pre, *self, old(self).global_clock.0, pre.global_clock.0, old(self).global_clock.0);
                        if done.is_some() {
                            pre.lemma_reached_under_keep(*self, curr_fence, cursor as int);
                        }
                    }
                    if done.is_none() {
                        return None;
                    }
                },
                BlockUnsafeDegree::ActiveUnderflow => {
                    if len + 2 > FAN_OUT {
                        return None;
                    }
                    let done = self.on_underflow_node(cursor, index);
                    proof {
                        old(self).lemma_evolves_trans(pre, *self, old(self).global_clock.0, pre.global_clock.0, old(self).global_clock.0);
                        if done.is_some() {
                            pre.lemma_reached_under_keep(*self, curr_fence, cursor as int);
                        }
                    }
                    if done.is_none() {
                        return None;
                    }
                },
                BlockUnsafeDegree::Safe => {
                    proof {
                        let page = self.blocks@[cursor as int].node_data->Index_0;
                        assert(entry_leads_to(self.blocks@, cursor as int, index as int, fence, child as int));
                        assert(self.levels@[cursor as int] == self.levels@[child as int] + 1);
                    }
                    curr_fence = fence;
                    cursor = child;
                },
            }
        }
    }
}

} // verus!
