use vstd::prelude::*;
use crate::mv_block::block::Block;
use crate::mv_page_model::internal_page::InternalPage;
use crate::mv_page_model::node::Node;
use crate::mv_page_model::record_history::lookup;
use crate::mv_query::time_matcher::spec_plain;
use crate::mv_record_model::record_point::Key;
use crate::mv_record_model::version_info::Version;
use crate::mv_root::frugal_root::{newest_at_most, FrugalNodeSt};
use crate::mv_root::tree_root::ValueRootInner;
use crate::mv_tree::mvtree::{
    entry_in_range, entry_routes, leaf_range_hits, range_children, range_hits, range_leaves, range_next_level, read_entry,
    read_route, MVTreeSt,
};
use crate::mv_page_model::BlockID;
use crate::mv_utils::interval::Interval;
use crate::mv_tree::smo::{mark_obsolete_at, page_entries, Entry};
use crate::mv_query::time_matcher::lemma_mark_obsolete;
use crate::mv_page_model::record_history::{close_at, law_close_keeps_older_snapshots, law_insert_keeps_older_snapshots};
use crate::mv_record_model::record_point::RecordPoint;

verus! {

/// Block `nb` answers every reader of a snapshot older than `w` as block `ob`
/// does: a leaf with the same lookups, an index page that routes to the same
/// entry, with the same child.
pub open spec fn block_reads_same<const FAN_OUT: usize, const NUM_RECORDS: usize, P: Copy>(
    ob: Block<FAN_OUT, NUM_RECORDS, P>,
    nb: Block<FAN_OUT, NUM_RECORDS, P>,
    w: Version,
) -> bool {
    match (ob.node_data, nb.node_data) {
        (Node::Leaf(l), Node::Leaf(l2)) => {
            &&& forall|k: Key, v: Version| v < w ==> #[trigger] lookup(l2.records(), k, v) == lookup(l.records(), k, v)
            &&& forall|range: Interval, v: Version|
                v < w ==> #[trigger] leaf_range_hits(l2.records(), range, v, l2.records().len() as int)
                    == leaf_range_hits(l.records(), range, v, l.records().len() as int)
        },
        (Node::Index(p), Node::Index(p2)) => {
            &&& forall|k: Key, v: Version|
                v < w ==> {
                    &&& #[trigger] read_entry(p2, k, v, p2.spec_len()) == read_entry(p, k, v, p.spec_len())
                    &&& read_entry(p, k, v, p.spec_len()) matches Some(j) ==> p2.pointer_region@[j] == p.pointer_region@[j]
                }
            &&& forall|range: Interval, v: Version|
                v < w ==> #[trigger] range_children(p2, range, v, p2.spec_len(), Seq::empty(), Seq::empty())
                    == range_children(p, range, v, p.spec_len(), Seq::empty(), Seq::empty())
        },
        _ => false,
    }
}

pub proof fn lemma_reads_same_refl<const FAN_OUT: usize, const NUM_RECORDS: usize, P: Copy>(
    b: Block<FAN_OUT, NUM_RECORDS, P>,
    w: Version,
)
    ensures
        block_reads_same(b, b, w),
{
}

pub proof fn lemma_reads_same_trans<const FAN_OUT: usize, const NUM_RECORDS: usize, P: Copy>(
    b1: Block<FAN_OUT, NUM_RECORDS, P>,
    b2: Block<FAN_OUT, NUM_RECORDS, P>,
    b3: Block<FAN_OUT, NUM_RECORDS, P>,
    w1: Version,
    w2: Version,
    w: Version,
)
    requires
        block_reads_same(b1, b2, w1),
        block_reads_same(b2, b3, w2),
        w <= w1,
        w <= w2,
    ensures
        block_reads_same(b1, b3, w),
{
    match (b1.node_data, b3.node_data) {
        (Node::Leaf(l1), Node::Leaf(l3)) => {
            let l2 = b2.node_data->Leaf_0;
            assert forall|k: Key, v: Version| v < w implies #[trigger] lookup(l3.records(), k, v) == lookup(l1.records(), k, v) by {
                assert(lookup(l3.records(), k, v) == lookup(l2.records(), k, v));
                assert(lookup(l2.records(), k, v) == lookup(l1.records(), k, v));
            }
            assert forall|range: Interval, v: Version| v < w implies #[trigger] leaf_range_hits(l3.records(), range, v, l3.records().len() as int)
                == leaf_range_hits(l1.records(), range, v, l1.records().len() as int) by {
                assert(leaf_range_hits(l3.records(), range, v, l3.records().len() as int)
                    == leaf_range_hits(l2.records(), range, v, l2.records().len() as int));
                assert(leaf_range_hits(l2.records(), range, v, l2.records().len() as int)
                    == leaf_range_hits(l1.records(), range, v, l1.records().len() as int));
            }
        },
        (Node::Index(p1), Node::Index(p3)) => {
            let p2 = b2.node_data->Index_0;
            assert forall|k: Key, v: Version| v < w implies {
                &&& #[trigger] read_entry(p3, k, v, p3.spec_len()) == read_entry(p1, k, v, p1.spec_len())
                &&& read_entry(p1, k, v, p1.spec_len()) matches Some(j) ==> p3.pointer_region@[j] == p1.pointer_region@[j]
            } by {
                assert(read_entry(p3, k, v, p3.spec_len()) == read_entry(p2, k, v, p2.spec_len()));
                assert(read_entry(p2, k, v, p2.spec_len()) == read_entry(p1, k, v, p1.spec_len()));
            }
            assert forall|range: Interval, v: Version| v < w implies #[trigger] range_children(p3, range, v, p3.spec_len(), Seq::empty(), Seq::empty())
                == range_children(p1, range, v, p1.spec_len(), Seq::empty(), Seq::empty()) by {
                assert(range_children(p3, range, v, p3.spec_len(), Seq::empty(), Seq::empty())
                    == range_children(p2, range, v, p2.spec_len(), Seq::empty(), Seq::empty()));
                assert(range_children(p2, range, v, p2.spec_len(), Seq::empty(), Seq::empty())
                    == range_children(p1, range, v, p1.spec_len(), Seq::empty(), Seq::empty()));
            }
        },
        _ => {},
    }
}

/// Entries added to a page from version `w` on do not route readers of
/// snapshots older than `w`.
pub proof fn lemma_read_entry_extend<const FAN_OUT: usize>(p: InternalPage<FAN_OUT>, p2: InternalPage<FAN_OUT>, w: Version, k: Key, v: Version, upto: int)
    requires
        p.spec_len() <= upto <= p2.spec_len(),
        forall|i: int| p.spec_len() <= i < p2.spec_len() ==> spec_plain(#[trigger] p2.version_region@[i]) >= w,
        v < w,
    ensures
        read_entry(p2, k, v, upto) == read_entry(p2, k, v, p.spec_len()),
    decreases upto,
{
    if upto > p.spec_len() {
        assert(spec_plain(p2.version_region@[upto - 1]) >= w);
        assert(!entry_routes(p2, upto - 1, k, v));
        lemma_read_entry_extend(p, p2, w, k, v, upto - 1);
    }
}

/// Entries added to a page from version `w` on are skipped by range readers
/// of snapshots older than `w`.
proof fn lemma_range_children_extend<const FAN_OUT: usize>(
    p: InternalPage<FAN_OUT>,
    p2: InternalPage<FAN_OUT>,
    w: Version,
    range: Interval,
    v: Version,
    j: int,
    lower: Seq<Key>,
    upper: Seq<Key>,
)
    requires
        p.spec_len() <= j <= p2.spec_len(),
        forall|i: int| p.spec_len() <= i < p2.spec_len() ==> spec_plain(#[trigger] p2.version_region@[i]) >= w,
        v < w,
    ensures
        range_children(p2, range, v, j, lower, upper) == range_children(p2, range, v, p.spec_len(), lower, upper),
    decreases j,
{
    if j > p.spec_len() {
        assert(spec_plain(p2.version_region@[j - 1]) >= w);
        assert(!entry_in_range(p2, j - 1, range, v));
        lemma_range_children_extend(p, p2, w, range, v, j - 1, lower, upper);
    }
}

/// Pages that agree on their first entries (fences, children and versions
/// without the obsolete mark) hand a range reader the same children there.
proof fn lemma_range_children_prefix<const FAN_OUT: usize>(
    p: InternalPage<FAN_OUT>,
    p2: InternalPage<FAN_OUT>,
    range: Interval,
    v: Version,
    j: int,
    lower: Seq<Key>,
    upper: Seq<Key>,
)
    requires
        forall|i: int| 0 <= i < p.spec_len() ==> {
            &&& #[trigger] p2.key_interval_region@[i] == p.key_interval_region@[i]
            &&& p2.pointer_region@[i] == p.pointer_region@[i]
            &&& spec_plain(p2.version_region@[i]) == spec_plain(p.version_region@[i])
        },
        0 <= j <= p.spec_len(),
    ensures
        range_children(p2, range, v, j, lower, upper) == range_children(p, range, v, j, lower, upper),
    decreases j,
{
    if j > 0 {
        let fence = p.key_interval_region@[j - 1];
        assert(p2.key_interval_region@[j - 1] == fence);
        assert(entry_in_range(p2, j - 1, range, v) == entry_in_range(p, j - 1, range, v));
        if entry_in_range(p, j - 1, range, v) && !lower.contains(fence.lower) {
            if !upper.contains(fence.upper) {
                lemma_range_children_prefix(p, p2, range, v, j - 1, lower.push(fence.lower), upper.push(fence.upper));
            } else {
                lemma_range_children_prefix(p, p2, range, v, j - 1, lower.push(fence.lower), upper);
            }
        } else {
            lemma_range_children_prefix(p, p2, range, v, j - 1, lower, upper);
        }
    }
}

/// Every child a range reader takes from the first `j` entries of `p` is a
/// child pointer below `bound` when all of those are.
pub proof fn lemma_range_children_bound<const FAN_OUT: usize>(
    p: InternalPage<FAN_OUT>,
    range: Interval,
    v: Version,
    j: int,
    lower: Seq<Key>,
    upper: Seq<Key>,
    bound: int,
)
    requires
        j <= p.spec_len(),
        forall|i: int| 0 <= i < j ==> #[trigger] p.pointer_region@[i] < bound,
    ensures
        forall|x: int| 0 <= x < range_children(p, range, v, j, lower, upper).len()
            ==> #[trigger] range_children(p, range, v, j, lower, upper)[x] < bound,
    decreases j,
{
    if j > 0 {
        let fence = p.key_interval_region@[j - 1];
        assert(p.pointer_region@[j - 1] < bound);
        if entry_in_range(p, j - 1, range, v) && !lower.contains(fence.lower) {
            if !upper.contains(fence.upper) {
                lemma_range_children_bound(p, range, v, j - 1, lower.push(fence.lower), upper.push(fence.upper), bound);
                let rest = range_children(p, range, v, j - 1, lower.push(fence.lower), upper.push(fence.upper));
                let all = seq![p.pointer_region@[j - 1]] + rest;
                assert forall|x: int| 0 <= x < all.len() implies #[trigger] all[x] < bound by {
                    if x > 0 {
                        assert(all[x] == rest[x - 1]);
                    }
                }
                assert(range_children(p, range, v, j, lower, upper) == all);
            } else {
                lemma_range_children_bound(p, range, v, j - 1, lower.push(fence.lower), upper, bound);
                assert(range_children(p, range, v, j, lower, upper)
                    == range_children(p, range, v, j - 1, lower.push(fence.lower), upper));
            }
        } else {
            lemma_range_children_bound(p, range, v, j - 1, lower, upper, bound);
            assert(range_children(p, range, v, j, lower, upper) == range_children(p, range, v, j - 1, lower, upper));
        }
    }
}

/// Two record sequences whose first `k` records agree on key, payload and
/// visibility at `v` give a range reader of `v` the same answers there.
proof fn lemma_leaf_hits_same<P>(recs: Seq<RecordPoint<P>>, recs2: Seq<RecordPoint<P>>, range: Interval, v: Version, k: int)
    requires
        0 <= k <= recs.len(),
        k <= recs2.len(),
        forall|i: int| 0 <= i < k ==> {
            &&& (#[trigger] recs2[i]).key == recs[i].key
            &&& recs2[i].payload == recs[i].payload
            &&& recs2[i].version.spec_matches(v) == recs[i].version.spec_matches(v)
        },
    ensures
        leaf_range_hits(recs2, range, v, k) == leaf_range_hits(recs, range, v, k),
    decreases k,
{
    if k > 0 {
        assert(recs2[k - 1].key == recs[k - 1].key);
        lemma_leaf_hits_same(recs, recs2, range, v, k - 1);
    }
}

proof fn lemma_read_entry_prefix<const FAN_OUT: usize>(p: InternalPage<FAN_OUT>, p2: InternalPage<FAN_OUT>, k: Key, v: Version, upto: int)
    requires
        p.wf(),
        p2.wf(),
        p.spec_len() <= p2.spec_len(),
        forall|i: int| 0 <= i < p.spec_len() ==> {
            &&& #[trigger] p2.key_interval_region@[i] == p.key_interval_region@[i]
            &&& p2.pointer_region@[i] == p.pointer_region@[i]
            &&& spec_plain(p2.version_region@[i]) == spec_plain(p.version_region@[i])
        },
        0 <= upto <= p.spec_len(),
    ensures
        read_entry(p2, k, v, upto) == read_entry(p, k, v, upto),
    decreases upto,
{
    if upto > 0 {
        assert(p2.key_interval_region@[upto - 1] == p.key_interval_region@[upto - 1]);
        assert(entry_routes(p2, upto - 1, k, v) == entry_routes(p, upto - 1, k, v));
        lemma_read_entry_prefix(p, p2, k, v, upto - 1);
    }
}

/// Roots added from version `w` on do not change which root a snapshot older
/// than `w` starts from.
pub proof fn lemma_newest_same(nodes1: Seq<FrugalNodeSt<ValueRootInner>>, nodes2: Seq<FrugalNodeSt<ValueRootInner>>, w: Version, v: Version, upto: int)
    requires
        nodes1.len() <= nodes2.len(),
        nodes2.take(nodes1.len() as int) == nodes1,
        forall|i: int| nodes1.len() <= i < nodes2.len() ==> (#[trigger] nodes2[i]).insert_version >= w,
        v < w,
        nodes1.len() - 1 <= upto < nodes2.len(),
    ensures
        newest_at_most(nodes2, upto, v) == newest_at_most(nodes1, nodes1.len() - 1, v),
    decreases upto + 1,
{
    if upto >= nodes1.len() {
        assert(nodes2[upto].insert_version >= w);
        lemma_newest_same(nodes1, nodes2, w, v, upto - 1);
    } else {
        lemma_newest_prefix(nodes1, nodes2, v, upto);
    }
}

proof fn lemma_newest_prefix(nodes1: Seq<FrugalNodeSt<ValueRootInner>>, nodes2: Seq<FrugalNodeSt<ValueRootInner>>, v: Version, upto: int)
    requires
        nodes1.len() <= nodes2.len(),
        nodes2.take(nodes1.len() as int) == nodes1,
        upto < nodes1.len(),
    ensures
        newest_at_most(nodes2, upto, v) == newest_at_most(nodes1, upto, v),
    decreases upto + 1,
{
    if upto >= 0 {
        assert(nodes2[upto] == nodes2.take(nodes1.len() as int)[upto]);
        lemma_newest_prefix(nodes1, nodes2, v, upto - 1);
    }
}

/// `e` and `f` hold the same entries, versions compared without the obsolete mark.
pub open spec fn same_up_to_marks(e: Seq<Entry>, f: Seq<Entry>) -> bool {
    &&& e.len() == f.len()
    &&& forall|i: int| 0 <= i < e.len() ==> {
        &&& (#[trigger] e[i]).0 == f[i].0
        &&& e[i].2 == f[i].2
        &&& spec_plain(e[i].1) == spec_plain(f[i].1)
    }
}

pub proof fn lemma_same_up_to_marks_refl(e: Seq<Entry>)
    ensures
        same_up_to_marks(e, e),
{
}

pub proof fn lemma_mark_same_up_to_marks(e: Seq<Entry>, f: Seq<Entry>, j: int)
    requires
        same_up_to_marks(e, f),
        0 <= j < e.len(),
    ensures
        same_up_to_marks(mark_obsolete_at(e, j), f),
{
    lemma_mark_obsolete(e[j].1);
    let m = mark_obsolete_at(e, j);
    assert forall|i: int| 0 <= i < m.len() implies {
        &&& (#[trigger] m[i]).0 == f[i].0
        &&& m[i].2 == f[i].2
        &&& spec_plain(m[i].1) == spec_plain(f[i].1)
    } by {
        if i != j {
            assert(m[i] == e[i]);
        }
    }
}

/// An index page whose entries are those of `p` (obsolete marks aside)
/// followed by entries of version `w` routes readers of snapshots older than
/// `w` as `p` does.
pub proof fn lemma_page_grows_reads_same<const FAN_OUT: usize, const NUM_RECORDS: usize, P: Copy>(
    ob: Block<FAN_OUT, NUM_RECORDS, P>,
    nb: Block<FAN_OUT, NUM_RECORDS, P>,
    e: Seq<Entry>,
    extra: Seq<Entry>,
    w: Version,
)
    requires
        ob.node_data matches Node::Index(p) && p.wf(),
        nb.node_data matches Node::Index(p2) && p2.wf() && page_entries(p2) == e + extra,
        same_up_to_marks(e, page_entries(ob.node_data->Index_0)),
        forall|i: int| 0 <= i < extra.len() ==> (#[trigger] extra[i]).1 == w,
        w < 0x8000_0000_0000_0000u64,
    ensures
        block_reads_same(ob, nb, w),
{
    let p = ob.node_data->Index_0;
    let p2 = nb.node_data->Index_0;
    assert(page_entries(p2) == e + extra);
    assert(page_entries(p2).len() == p2.spec_len());
    assert((e + extra).len() == e.len() + extra.len());
    assert(p2.spec_len() == e.len() + extra.len());
    assert forall|i: int| 0 <= i < p.spec_len() implies {
        &&& #[trigger] p2.key_interval_region@[i] == p.key_interval_region@[i]
        &&& p2.pointer_region@[i] == p.pointer_region@[i]
        &&& spec_plain(p2.version_region@[i]) == spec_plain(p.version_region@[i])
    } by {
        assert(page_entries(p2)[i] == e[i]);
        assert(page_entries(p)[i] == (p.key_interval_region@[i], p.version_region@[i], p.pointer_region@[i]));
    }
    assert forall|i: int| p.spec_len() <= i < p2.spec_len() implies spec_plain(#[trigger] p2.version_region@[i]) >= w by {
        assert(page_entries(p2)[i] == extra[i - e.len()]);
        assert(p2.version_region@[i] == w);
    }
    assert forall|k: Key, v: Version| v < w implies {
        &&& #[trigger] read_entry(p2, k, v, p2.spec_len()) == read_entry(p, k, v, p.spec_len())
        &&& read_entry(p, k, v, p.spec_len()) matches Some(j) ==> p2.pointer_region@[j] == p.pointer_region@[j]
    } by {
        lemma_read_entry_extend(p, p2, w, k, v, p2.spec_len());
        lemma_read_entry_prefix(p, p2, k, v, p.spec_len());
        crate::mv_tree::mvtree::lemma_read_entry(p, k, v, p.spec_len());
        if let Some(j) = read_entry(p, k, v, p.spec_len()) {
            assert(p2.key_interval_region@[j] == p.key_interval_region@[j]);
        }
    }
    assert forall|range: Interval, v: Version| v < w implies #[trigger] range_children(p2, range, v, p2.spec_len(), Seq::empty(), Seq::empty())
        == range_children(p, range, v, p.spec_len(), Seq::empty(), Seq::empty()) by {
        lemma_range_children_extend(p, p2, w, range, v, p2.spec_len(), Seq::empty(), Seq::empty());
        lemma_range_children_prefix(p, p2, range, v, p.spec_len(), Seq::empty(), Seq::empty());
    }
}

/// A leaf write at version `w` (an appended live record, a closed open
/// record, or both) keeps every lookup of a snapshot older than `w`.
pub proof fn lemma_leaf_grows_reads_same<const FAN_OUT: usize, const NUM_RECORDS: usize, P: Copy>(
    ob: Block<FAN_OUT, NUM_RECORDS, P>,
    nb: Block<FAN_OUT, NUM_RECORDS, P>,
    closed: Option<int>,
    added: Option<RecordPoint<P>>,
    w: Version,
)
    requires
        ob.node_data matches Node::Leaf(l),
        nb.node_data matches Node::Leaf(l2),
        ({
            let recs = ob.node_data->Leaf_0.records();
            let mid = match closed {
                Some(i) => close_at(recs, i, w),
                None => recs,
            };
            &&& closed matches Some(i) ==> 0 <= i < recs.len() && recs[i].version.delete_version is None
            &&& nb.node_data->Leaf_0.records() == match added {
                Some(r) => mid.push(r),
                None => mid,
            }
            &&& added matches Some(r) ==> r.version.insert_version == w
        }),
    ensures
        block_reads_same(ob, nb, w),
{
    let recs = ob.node_data->Leaf_0.records();
    let mid = match closed {
        Some(i) => close_at(recs, i, w),
        None => recs,
    };
    let l2 = nb.node_data->Leaf_0;
    assert forall|k: Key, v: Version| v < w implies #[trigger] lookup(l2.records(), k, v) == lookup(recs, k, v) by {
        if let Some(i) = closed {
            law_close_keeps_older_snapshots(recs, i, w, k, v);
        }
        if let Some(r) = added {
            law_insert_keeps_older_snapshots(mid, r, k, v);
        }
    }
    assert forall|range: Interval, v: Version| v < w implies #[trigger] leaf_range_hits(l2.records(), range, v, l2.records().len() as int)
        == leaf_range_hits(recs, range, v, recs.len() as int) by {
        let n = recs.len() as int;
        assert forall|i: int| 0 <= i < n implies {
            &&& (#[trigger] mid[i]).key == recs[i].key
            &&& mid[i].payload == recs[i].payload
            &&& mid[i].version.spec_matches(v) == recs[i].version.spec_matches(v)
        } by {}
        lemma_leaf_hits_same(recs, mid, range, v, n);
        match added {
            Some(r) => {
                let nr = mid.push(r);
                assert(nr[n] == r);
                assert(!r.version.spec_matches(v));
                assert forall|i: int| 0 <= i < n implies {
                    &&& (#[trigger] nr[i]).key == mid[i].key
                    &&& nr[i].payload == mid[i].payload
                    &&& nr[i].version.spec_matches(v) == mid[i].version.spec_matches(v)
                } by {
                    assert(nr[i] == mid[i]);
                }
                lemma_leaf_hits_same(mid, nr, range, v, n);
            },
            None => {},
        }
    }
}

impl<const FAN_OUT: usize, const NUM_RECORDS: usize, P: Copy> MVTreeSt<FAN_OUT, NUM_RECORDS, P> {
    /// A tree whose first blocks and root history are those of `self` grew out
    /// of it without changing any read.
    pub proof fn lemma_evolves_by_append(self, t2: Self, w: Version)
        requires
            self.blocks@.len() <= t2.blocks@.len(),
            t2.blocks@.take(self.blocks@.len() as int) == self.blocks@,
            t2.root == self.root,
        ensures
            self.evolves_to(t2, w),
    {
        assert forall|b: int| 0 <= b < self.blocks@.len() implies block_reads_same(#[trigger] self.blocks@[b], t2.blocks@[b], w) by {
            assert(t2.blocks@.take(self.blocks@.len() as int)[b] == t2.blocks@[b]);
        }
        assert(t2.root.history().take(self.root.history().len() as int) =~= self.root.history());
    }

    /// Changing one block so that it reads the same before `w`, and nothing
    /// else, keeps the reads of snapshots older than `w`.
    pub proof fn lemma_evolves_one_block(self, t2: Self, b: int, w: Version)
        requires
            self.blocks@.len() == t2.blocks@.len(),
            0 <= b < self.blocks@.len(),
            forall|i: int| 0 <= i < self.blocks@.len() && i != b ==> t2.blocks@[i] == self.blocks@[i],
            block_reads_same(self.blocks@[b], t2.blocks@[b], w),
            t2.root == self.root,
        ensures
            self.evolves_to(t2, w),
    {
        assert forall|i: int| 0 <= i < self.blocks@.len() implies block_reads_same(#[trigger] self.blocks@[i], t2.blocks@[i], w) by {
            if i != b {
                assert(t2.blocks@[i] == self.blocks@[i]);
            }
        }
        assert(t2.root.history().take(self.root.history().len() as int) =~= self.root.history());
    }

    /// `t2` grew out of `self` without changing what a reader of a snapshot
    /// older than `w` sees: the blocks of `self` are kept (more may follow)
    /// and read the same before `w`, and roots were only added, from `w` on.
    pub open spec fn evolves_to(self, t2: Self, w: Version) -> bool {
        &&& self.blocks@.len() <= t2.blocks@.len()
        &&& forall|b: int| 0 <= b < self.blocks@.len() ==> block_reads_same(#[trigger] self.blocks@[b], t2.blocks@[b], w)
        &&& self.root.history().len() <= t2.root.history().len()
        &&& t2.root.history().take(self.root.history().len() as int) == self.root.history()
        &&& forall|i: int| self.root.history().len() <= i < t2.root.history().len() ==> (#[trigger] t2.root.history()[i]).insert_version >= w
    }

    /// Every point read and every range read of a snapshot older than `w`
    /// answers in `t2` as in `self`.
    pub open spec fn reads_agree_below(self, t2: Self, w: Version) -> bool {
        &&& forall|k: Key, v: Version| v < w ==> #[trigger] t2.spec_point_read(k, v) == self.spec_point_read(k, v)
        &&& forall|range: Interval, v: Version| v < w ==> #[trigger] t2.spec_range_read(range, v) == self.spec_range_read(range, v)
    }

    /// Reads that agree below `w1` and then below `w2` agree below any `w`
    /// under both.
    pub proof fn lemma_reads_agree_trans(self, t2: Self, t3: Self, w1: Version, w2: Version, w: Version)
        requires
            self.reads_agree_below(t2, w1),
            t2.reads_agree_below(t3, w2),
            w <= w1,
            w <= w2,
        ensures
            self.reads_agree_below(t3, w),
    {
        assert forall|k: Key, v: Version| v < w implies #[trigger] t3.spec_point_read(k, v) == self.spec_point_read(k, v) by {
            assert(t3.spec_point_read(k, v) == t2.spec_point_read(k, v));
            assert(t2.spec_point_read(k, v) == self.spec_point_read(k, v));
        }
        assert forall|range: Interval, v: Version| v < w implies #[trigger] t3.spec_range_read(range, v) == self.spec_range_read(range, v) by {
            assert(t3.spec_range_read(range, v) == t2.spec_range_read(range, v));
            assert(t2.spec_range_read(range, v) == self.spec_range_read(range, v));
        }
    }

    /// Every read agrees with itself.
    pub proof fn lemma_reads_agree_refl(self, w: Version)
        ensures
            self.reads_agree_below(self, w),
    {
    }

    pub proof fn lemma_evolves_refl(self, w: Version)
        ensures
            self.evolves_to(self, w),
    {
        assert(self.root.history().take(self.root.history().len() as int) =~= self.root.history());
    }

    pub proof fn lemma_evolves_trans(self, t2: Self, t3: Self, w1: Version, w2: Version, w: Version)
        requires
            self.evolves_to(t2, w1),
            t2.evolves_to(t3, w2),
            w <= w1,
            w <= w2,
        ensures
            self.evolves_to(t3, w),
    {
        assert forall|b: int| 0 <= b < self.blocks@.len() implies block_reads_same(#[trigger] self.blocks@[b], t3.blocks@[b], w) by {
            assert(block_reads_same(self.blocks@[b], t2.blocks@[b], w1));
            assert(block_reads_same(t2.blocks@[b], t3.blocks@[b], w2));
            lemma_reads_same_trans(self.blocks@[b], t2.blocks@[b], t3.blocks@[b], w1, w2, w);
        }
        let n1 = self.root.history().len() as int;
        let n2 = t2.root.history().len() as int;
        assert(t3.root.history().take(n1) =~= self.root.history()) by {
            assert forall|i: int| 0 <= i < n1 implies t3.root.history().take(n1)[i] == self.root.history()[i] by {
                assert(t3.root.history().take(n2)[i] == t2.root.history()[i]);
                assert(t2.root.history().take(n1)[i] == self.root.history()[i]);
            }
        }
        assert forall|i: int| n1 <= i < t3.root.history().len() implies (#[trigger] t3.root.history()[i]).insert_version >= w by {
            if i < n2 {
                assert(t3.root.history().take(n2)[i] == t2.root.history()[i]);
                assert(t2.root.history()[i].insert_version >= w1);
            }
        }
    }

    /// A reader of a snapshot older than `w` walks the same route in `t2` as
    /// in `self`, from any block of `self`.
    pub proof fn lemma_route_same(self, t2: Self, w: Version, b: int, k: Key, v: Version, fuel: nat)
        requires
            self.wf(),
            self.evolves_to(t2, w),
            v < w,
            0 <= b < self.blocks@.len(),
        ensures
            read_route(t2.blocks@, b, k, v, fuel) == read_route(self.blocks@, b, k, v, fuel),
            read_route(self.blocks@, b, k, v, fuel) matches Some(l) ==> 0 <= l < self.blocks@.len(),
        decreases fuel,
    {
        assert(block_reads_same(self.blocks@[b], t2.blocks@[b], w));
        assert(self.block_ok(b));
        match self.blocks@[b].node_data {
            Node::Leaf(_) => {},
            Node::Index(p) => {
                let p2 = t2.blocks@[b].node_data->Index_0;
                assert(read_entry(p2, k, v, p2.spec_len()) == read_entry(p, k, v, p.spec_len()));
                if fuel > 0 {
                    match read_entry(p, k, v, p.spec_len()) {
                        None => {},
                        Some(j) => {
                            crate::mv_tree::mvtree::lemma_read_entry(p, k, v, p.spec_len());
                            assert(p.pointer_region@[j] < self.blocks@.len());
                            self.lemma_route_same(t2, w, p.pointer_region@[j] as int, k, v, (fuel - 1) as nat);
                        },
                    }
                }
            },
        }
    }

    /// A range reader of a snapshot older than `w` takes the same blocks one
    /// level below `frontier` in `t2` as in `self`, when `frontier` holds
    /// blocks of `self`; those blocks are blocks of `self` too.
    pub proof fn lemma_next_level_same(self, t2: Self, w: Version, frontier: Seq<BlockID>, range: Interval, v: Version)
        requires
            self.wf(),
            self.evolves_to(t2, w),
            v < w,
            forall|i: int| 0 <= i < frontier.len() ==> #[trigger] frontier[i] < self.blocks@.len(),
        ensures
            range_next_level(t2.blocks@, frontier, range, v) == range_next_level(self.blocks@, frontier, range, v),
            forall|i: int| 0 <= i < range_next_level(self.blocks@, frontier, range, v).len()
                ==> #[trigger] range_next_level(self.blocks@, frontier, range, v)[i] < self.blocks@.len(),
        decreases frontier.len(),
    {
        if frontier.len() > 0 {
            let rest = frontier.drop_last();
            assert forall|i: int| 0 <= i < rest.len() implies #[trigger] rest[i] < self.blocks@.len() by {
                assert(rest[i] == frontier[i]);
            }
            self.lemma_next_level_same(t2, w, rest, range, v);
            let b = frontier.last() as int;
            assert(frontier[frontier.len() - 1] < self.blocks@.len());
            assert(block_reads_same(self.blocks@[b], t2.blocks@[b], w));
            assert(self.block_ok(b));
            let head = range_next_level(self.blocks@, rest, range, v);
            let tail = match self.blocks@[b].node_data {
                Node::Index(page) => range_children(page, range, v, page.spec_len(), Seq::empty(), Seq::empty()),
                Node::Leaf(_) => Seq::empty(),
            };
            match self.blocks@[b].node_data {
                Node::Index(page) => {
                    let page2 = t2.blocks@[b].node_data->Index_0;
                    assert(range_children(page2, range, v, page2.spec_len(), Seq::empty(), Seq::empty()) == tail);
                    lemma_range_children_bound(page, range, v, page.spec_len(), Seq::empty(), Seq::empty(), self.blocks@.len() as int);
                },
                Node::Leaf(_) => {},
            }
            let all = head + tail;
            assert(range_next_level(self.blocks@, frontier, range, v) == all);
            assert forall|i: int| 0 <= i < all.len() implies #[trigger] all[i] < self.blocks@.len() by {
                if i >= head.len() {
                    assert(all[i] == tail[i - head.len()]);
                } else {
                    assert(all[i] == head[i]);
                }
            }
        }
    }

    /// A range reader of a snapshot older than `w` reaches the same leaves in
    /// `t2` as in `self` from blocks of `self`.
    pub proof fn lemma_range_leaves_same(self, t2: Self, w: Version, frontier: Seq<BlockID>, range: Interval, v: Version, levels: nat)
        requires
            self.wf(),
            self.evolves_to(t2, w),
            v < w,
            forall|i: int| 0 <= i < frontier.len() ==> #[trigger] frontier[i] < self.blocks@.len(),
        ensures
            range_leaves(t2.blocks@, frontier, range, v, levels) == range_leaves(self.blocks@, frontier, range, v, levels),
            forall|i: int| 0 <= i < range_leaves(self.blocks@, frontier, range, v, levels).len()
                ==> #[trigger] range_leaves(self.blocks@, frontier, range, v, levels)[i] < self.blocks@.len(),
        decreases levels,
    {
        if levels > 0 {
            self.lemma_next_level_same(t2, w, frontier, range, v);
            let next = range_next_level(self.blocks@, frontier, range, v);
            self.lemma_range_leaves_same(t2, w, next, range, v, (levels - 1) as nat);
        }
    }

    /// The answers a range reader of a snapshot older than `w` takes from
    /// blocks of `self` are the same in `t2`.
    pub proof fn lemma_range_hits_same(self, t2: Self, w: Version, leaves: Seq<BlockID>, range: Interval, v: Version)
        requires
            self.evolves_to(t2, w),
            v < w,
            forall|i: int| 0 <= i < leaves.len() ==> #[trigger] leaves[i] < self.blocks@.len(),
        ensures
            range_hits(t2.blocks@, leaves, range, v) == range_hits(self.blocks@, leaves, range, v),
        decreases leaves.len(),
    {
        if leaves.len() > 0 {
            let rest = leaves.drop_last();
            assert forall|i: int| 0 <= i < rest.len() implies #[trigger] rest[i] < self.blocks@.len() by {
                assert(rest[i] == leaves[i]);
            }
            self.lemma_range_hits_same(t2, w, rest, range, v);
            let b = leaves.last() as int;
            assert(leaves[leaves.len() - 1] < self.blocks@.len());
            assert(block_reads_same(self.blocks@[b], t2.blocks@[b], w));
        }
    }

    /// A tree that grew out of `self` without changing the reads of snapshots
    /// older than `w` answers every point read of such a snapshot as `self`.
    pub proof fn lemma_evolves_reads(self, t2: Self, w: Version)
        requires
            self.wf(),
            t2.wf(),
            self.evolves_to(t2, w),
        ensures
            self.reads_agree_below(t2, w),
    {
        assert forall|k: Key, v: Version| v < w implies #[trigger] t2.spec_point_read(k, v) == self.spec_point_read(k, v) by {
            lemma_newest_same(self.root.history(), t2.root.history(), w, v, t2.root.head());
            match self.spec_root_for(v) {
                None => {},
                Some(r) => {
                    crate::mv_root::frugal_root::lemma_newest_at_most(self.root.history(), self.root.head(), v);
                    let i = newest_at_most(self.root.history(), self.root.head(), v)->0;
                    assert(t2.root.history()[i] == t2.root.history().take(self.root.history().len() as int)[i]);
                    assert(self.root.history()[i].payload == r);
                    assert(r.0 < self.blocks@.len());
                    self.lemma_route_same(t2, w, r.0 as int, k, v, r.1 as nat);
                    match read_route(self.blocks@, r.0 as int, k, v, r.1 as nat) {
                        None => {},
                        Some(leaf) => {
                            assert(block_reads_same(self.blocks@[leaf], t2.blocks@[leaf], w));
                        },
                    }
                },
            }
        }
        assert forall|range: Interval, v: Version| v < w implies #[trigger] t2.spec_range_read(range, v) == self.spec_range_read(range, v) by {
            lemma_newest_same(self.root.history(), t2.root.history(), w, v, t2.root.head());
            match self.spec_root_for(v) {
                None => {},
                Some(r) => {
                    crate::mv_root::frugal_root::lemma_newest_at_most(self.root.history(), self.root.head(), v);
                    let i = newest_at_most(self.root.history(), self.root.head(), v)->0;
                    assert(t2.root.history()[i] == t2.root.history().take(self.root.history().len() as int)[i]);
                    assert(self.root.history()[i].payload == r);
                    assert(t2.root.history()[i].payload == r);
                    assert(r.0 < self.blocks@.len());
                    assert(self.levels@[r.0 as int] == r.1);
                    assert(t2.levels@[r.0 as int] == r.1);
                    let start = seq![r.0];
                    let lv = (self.levels@[r.0 as int] - 1) as nat;
                    assert forall|x: int| 0 <= x < start.len() implies #[trigger] start[x] < self.blocks@.len() by {}
                    self.lemma_range_leaves_same(t2, w, start, range, v, lv);
                    let leaves = range_leaves(self.blocks@, start, range, v, lv);
                    self.lemma_range_hits_same(t2, w, leaves, range, v);
                },
            }
        }
    }
}

} // verus!
