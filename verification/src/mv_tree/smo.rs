use vstd::prelude::*;
use crate::mv_page_model::internal_page::{count_active, InternalPage};
use crate::mv_block::block::{geometry_ok, node_active, Block};
use crate::mv_page_model::Height;
use crate::mv_block::block::node_len;
use crate::mv_sync::smart_cell::{spec_unsafe_degree, spec_unsafe_degree_root};
use crate::mv_query::time_matcher::{spec_plain, OBSOLETE_VERSION_MARK};
use crate::mv_root::tree_root::ValueRootInner;
use crate::mv_test::dec_key;
use crate::mv_tree::mvtree::MVTreeSt;
use crate::mv_tree::snapshot::{lemma_mark_same_up_to_marks, lemma_page_grows_reads_same, lemma_same_up_to_marks_refl};
use crate::mv_tree::visibility::{covers, entries_fresh, lemma_grown_page_inv, lemma_merge_covers, lemma_replacement_covers, page_inv};
use crate::mv_page_model::leaf_page::LeafPage;
use crate::mv_page_model::node::Node;
use crate::mv_page_model::record_history::count_live;
use crate::mv_page_model::BlockID;
use crate::mv_query::time_matcher::{spec_obsolete, TimeMatcher};
use crate::mv_record_model::record_point::RecordPoint;
use crate::mv_record_model::version_info::Version;
use crate::mv_utils::interval::Interval;

verus! {

/// Whether a node needs a structure modification.
#[derive(PartialEq, Eq, Structural)]
pub enum BlockUnsafeDegree {
    Safe,
    Overflow,
    ActiveUnderflow,
}

impl BlockUnsafeDegree {
    pub fn is_ok(&self) -> (r: bool)
        ensures
            r == (*self is Safe),
    {
        match self {
            BlockUnsafeDegree::Safe => true,
            _ => false,
        }
    }

    pub fn is_length_overflow(&self) -> (r: bool)
        ensures
            r == (*self is Overflow),
    {
        match self {
            BlockUnsafeDegree::Overflow => true,
            _ => false,
        }
    }

    pub fn is_active_underflow(&self) -> (r: bool)
        ensures
            r == (*self is ActiveUnderflow),
    {
        match self {
            BlockUnsafeDegree::ActiveUnderflow => true,
            _ => false,
        }
    }
}

/// An index entry: the fence, the version stamp and the child.
pub type Entry = (Interval, Version, BlockID);

/// How a full block is replaced: by two blocks that split its key range, or
/// by one fresh copy of its live content.
pub enum BlockSplit {
    ByKey(Interval, BlockID, Interval, BlockID),
    ByVersion(BlockID),
}

/// The records whose lifespan is still open, in their order.
pub open spec fn live_of<P>(recs: Seq<RecordPoint<P>>) -> Seq<RecordPoint<P>>
    decreases recs.len(),
{
    if recs.len() == 0 {
        Seq::empty()
    } else if recs.last().version.delete_version is None {
        live_of(recs.drop_last()).push(recs.last())
    } else {
        live_of(recs.drop_last())
    }
}

pub proof fn lemma_live_of<P>(recs: Seq<RecordPoint<P>>)
    ensures
        live_of(recs).len() == count_live(recs),
        forall|i: int| 0 <= i < live_of(recs).len() ==> (#[trigger] live_of(recs)[i]).version.delete_version is None
            && recs.contains(live_of(recs)[i]),
    decreases recs.len(),
{
    if recs.len() > 0 {
        let d = recs.drop_last();
        lemma_live_of(d);
        assert forall|i: int| 0 <= i < live_of(recs).len() implies (#[trigger] live_of(recs)[i]).version.delete_version is None
            && recs.contains(live_of(recs)[i]) by {
            if i < live_of(d).len() {
                assert(live_of(recs)[i] == live_of(d)[i]);
                let k = choose|k: int| 0 <= k < d.len() && d[k] == live_of(d)[i];
                assert(recs[k] == d[k]);
            } else {
                assert(recs[recs.len() - 1] == recs.last());
            }
        }
    }
}

/// The active entries among the first `n` of `page`, in their order.
pub open spec fn active_of<const FAN_OUT: usize>(page: InternalPage<FAN_OUT>, n: int) -> Seq<Entry>
    decreases n,
{
    if n <= 0 {
        Seq::empty()
    } else if !spec_obsolete(page.version_region@[n - 1]) {
        active_of(page, n - 1).push(
            (page.key_interval_region@[n - 1], page.version_region@[n - 1], page.pointer_region@[n - 1]),
        )
    } else {
        active_of(page, n - 1)
    }
}

pub proof fn lemma_active_of<const FAN_OUT: usize>(page: InternalPage<FAN_OUT>, n: int)
    requires
        0 <= n <= page.spec_len(),
        page.wf(),
    ensures
        active_of(page, n).len() == count_active(page.version_region@.take(n)),
        forall|i: int| 0 <= i < active_of(page, n).len() ==> {
            &&& !spec_obsolete((#[trigger] active_of(page, n)[i]).1)
            &&& exists|j: int| 0 <= j < n && active_of(page, n)[i] == (
                page.key_interval_region@[j], page.version_region@[j], page.pointer_region@[j])
        },
    decreases n,
{
    if n > 0 {
        lemma_active_of(page, n - 1);
        assert(page.version_region@.take(n).drop_last() =~= page.version_region@.take(n - 1));
        assert forall|i: int| 0 <= i < active_of(page, n).len() implies {
            &&& !spec_obsolete((#[trigger] active_of(page, n)[i]).1)
            &&& exists|j: int| 0 <= j < n && active_of(page, n)[i] == (
                page.key_interval_region@[j], page.version_region@[j], page.pointer_region@[j])
        } by {
            if i < active_of(page, n - 1).len() {
                assert(active_of(page, n)[i] == active_of(page, n - 1)[i]);
            }
        }
    }
}

/// The live records of a leaf, in their order.
pub fn live_records<const NUM_RECORDS: usize, P: Copy>(l: &LeafPage<NUM_RECORDS, P>) -> (r: Vec<RecordPoint<P>>)
    requires
        l.wf(),
    ensures
        r@ == live_of(l.records()),
{
    let n = l.len();
    let mut out: Vec<RecordPoint<P>> = Vec::new();
    let mut i: usize = 0;
    while i < n
        invariant
            i <= n,
            n == l.committed_len(),
            l.wf(),
            out@ == live_of(l.records().take(i as int)),
        decreases n - i,
    {
        let rec = l.slots[i];
        proof {
            assert(l.records().take(i + 1).drop_last() =~= l.records().take(i as int));
            assert(l.records().take(i + 1).last() == rec);
        }
        if !rec.version.is_deleted() {
            out.push(rec);
        }
        i = i + 1;
    }
    proof {
        assert(l.records().take(n as int) =~= l.records());
    }
    out
}

/// The active entries of an index page, in their order.
pub fn active_entries<const FAN_OUT: usize>(page: &InternalPage<FAN_OUT>) -> (r: Vec<Entry>)
    requires
        page.wf(),
    ensures
        r@ == active_of(*page, page.spec_len()),
{
    let n = page.version_region.len();
    let mut out: Vec<Entry> = Vec::new();
    let mut i: usize = 0;
    while i < n
        invariant
            i <= n,
            n == page.spec_len(),
            page.wf(),
            out@ == active_of(*page, i as int),
        decreases n - i,
    {
        let v = page.version_region[i];
        if v.is_active() {
            out.push((page.key_interval_region[i], v, page.pointer_region[i]));
        }
        i = i + 1;
    }
    out
}

/// What records are ordered by: the key, or the version they were inserted at.
pub open spec fn rec_order<P>(r: RecordPoint<P>, by_key: bool) -> u64 {
    if by_key { r.key } else { r.version.insert_version }
}

fn order_of_rec<P>(r: &RecordPoint<P>, by_key: bool) -> (k: u64)
    ensures
        k == rec_order(*r, by_key),
{
    if by_key { r.key } else { r.version.insert_version }
}

pub open spec fn recs_sorted<P>(s: Seq<RecordPoint<P>>, by_key: bool) -> bool {
    forall|i: int, j: int| 0 <= i <= j < s.len() ==> rec_order(#[trigger] s[i], by_key) <= rec_order(#[trigger] s[j], by_key)
}

/// What index entries are ordered by: the lower fence bound, or the version.
pub open spec fn entry_order(e: Entry, by_lower: bool) -> u64 {
    if by_lower { e.0.lower } else { e.1 }
}

fn order_of_entry(e: &Entry, by_lower: bool) -> (k: u64)
    ensures
        k == entry_order(*e, by_lower),
{
    if by_lower { e.0.lower } else { e.1 }
}

pub open spec fn entries_sorted(s: Seq<Entry>, by_lower: bool) -> bool {
    forall|i: int, j: int| 0 <= i <= j < s.len() ==> entry_order(#[trigger] s[i], by_lower) <= entry_order(#[trigger] s[j], by_lower)
}

/// `items` ordered by key (`by_key`) or by insert version; records that
/// compare equal keep their order (an insertion sort).
pub fn sort_records<P: Copy>(items: &Vec<RecordPoint<P>>, by_key: bool) -> (r: Vec<RecordPoint<P>>)
    ensures
        r@.to_multiset() == items@.to_multiset(),
        r@.len() == items@.len(),
        recs_sorted(r@, by_key),
{
    let mut out: Vec<RecordPoint<P>> = Vec::new();
    let mut i: usize = 0;
    proof {
        assert(items@.take(0) =~= out@);
    }
    while i < items.len()
        invariant
            i <= items@.len(),
            out@.to_multiset() == items@.take(i as int).to_multiset(),
            out@.len() == i,
            recs_sorted(out@, by_key),
        decreases items@.len() - i,
    {
        let x = items[i];
        let xk = order_of_rec(&x, by_key);
        let mut pos = out.len();
        while pos > 0 && order_of_rec(&out[pos - 1], by_key) > xk
            invariant
                pos <= out@.len(),
                recs_sorted(out@, by_key),
                xk == rec_order(x, by_key),
                forall|j: int| pos <= j < out@.len() ==> rec_order(out@[j], by_key) > xk,
            decreases pos,
        {
            pos = pos - 1;
        }
        let ghost before = out@;
        out.insert(pos, x);
        proof {
            vstd::seq_lib::to_multiset_insert(before, pos as int, x);
            assert(items@.take(i + 1) =~= items@.take(i as int).push(x));
            vstd::seq_lib::to_multiset_build(items@.take(i as int), x);
            assert forall|a: int, b: int| 0 <= a <= b < out@.len() implies rec_order(#[trigger] out@[a], by_key)
                <= rec_order(#[trigger] out@[b], by_key) by {
                if a < pos && b > pos {
                    assert(out@[a] == before[a]);
                    assert(out@[b] == before[b - 1]);
                } else if a < pos && b == pos {
                    assert(out@[a] == before[a]);
                    assert(rec_order(before[pos - 1], by_key) <= xk);
                    assert(rec_order(before[a], by_key) <= rec_order(before[pos - 1], by_key));
                } else if a == pos && b > pos {
                    assert(out@[b] == before[b - 1]);
                } else if a > pos {
                    assert(out@[a] == before[a - 1]);
                    assert(out@[b] == before[b - 1]);
                } else if b < pos {
                    assert(out@[a] == before[a]);
                    assert(out@[b] == before[b]);
                }
            }
        }
        i = i + 1;
    }
    proof {
        assert(items@.take(items@.len() as int) =~= items@);
    }
    out
}

/// `items` ordered by lower fence bound (`by_lower`) or by version; entries
/// that compare equal keep their order (an insertion sort).
pub fn sort_entries(items: &Vec<Entry>, by_lower: bool) -> (r: Vec<Entry>)
    ensures
        r@.to_multiset() == items@.to_multiset(),
        r@.len() == items@.len(),
        entries_sorted(r@, by_lower),
{
    let mut out: Vec<Entry> = Vec::new();
    let mut i: usize = 0;
    proof {
        assert(items@.take(0) =~= out@);
    }
    while i < items.len()
        invariant
            i <= items@.len(),
            out@.to_multiset() == items@.take(i as int).to_multiset(),
            out@.len() == i,
            entries_sorted(out@, by_lower),
        decreases items@.len() - i,
    {
        let x = items[i];
        let xk = order_of_entry(&x, by_lower);
        let mut pos = out.len();
        while pos > 0 && order_of_entry(&out[pos - 1], by_lower) > xk
            invariant
                pos <= out@.len(),
                entries_sorted(out@, by_lower),
                xk == entry_order(x, by_lower),
                forall|j: int| pos <= j < out@.len() ==> entry_order(out@[j], by_lower) > xk,
            decreases pos,
        {
            pos = pos - 1;
        }
        let ghost before = out@;
        out.insert(pos, x);
        proof {
            vstd::seq_lib::to_multiset_insert(before, pos as int, x);
            assert(items@.take(i + 1) =~= items@.take(i as int).push(x));
            vstd::seq_lib::to_multiset_build(items@.take(i as int), x);
            assert forall|a: int, b: int| 0 <= a <= b < out@.len() implies entry_order(#[trigger] out@[a], by_lower)
                <= entry_order(#[trigger] out@[b], by_lower) by {
                if a < pos && b > pos {
                    assert(out@[a] == before[a]);
                    assert(out@[b] == before[b - 1]);
                } else if a < pos && b == pos {
                    assert(out@[a] == before[a]);
                    assert(entry_order(before[pos - 1], by_lower) <= xk);
                    assert(entry_order(before[a], by_lower) <= entry_order(before[pos - 1], by_lower));
                } else if a == pos && b > pos {
                    assert(out@[b] == before[b - 1]);
                } else if a > pos {
                    assert(out@[a] == before[a - 1]);
                    assert(out@[b] == before[b - 1]);
                } else if b < pos {
                    assert(out@[a] == before[a]);
                    assert(out@[b] == before[b]);
                }
            }
        }
        i = i + 1;
    }
    proof {
        assert(items@.take(items@.len() as int) =~= items@);
    }
    out
}

/// The key before `k`, saturating at the smallest key.
pub open spec fn spec_dec_key(k: u64) -> u64 {
    if k == 0 { 0 } else { (k - 1) as u64 }
}

/// The fences of the two halves of a key split of a block with fence
/// `fence`, the right half starting at key `s0`.
pub open spec fn split_fences(fence: Interval, s0: u64) -> (Interval, Interval) {
    (Interval { lower: fence.lower, upper: spec_dec_key(s0) }, Interval { lower: s0, upper: fence.upper })
}

/// `lr` and `rr` split the records `live` by key: `lr` holds the lower half
/// (rounded down), `rr` the rest, whose smallest key is `s0`; each half is
/// ordered by insert version.
pub open spec fn records_key_split<P>(live: Seq<RecordPoint<P>>, s0: u64, lr: Seq<RecordPoint<P>>, rr: Seq<RecordPoint<P>>) -> bool {
    &&& (lr + rr).to_multiset() == live.to_multiset()
    &&& lr.len() == live.len() / 2
    &&& 0 < rr.len()
    &&& forall|i: int, j: int| 0 <= i < lr.len() && 0 <= j < rr.len() ==> (#[trigger] lr[i]).key <= (#[trigger] rr[j]).key
    &&& forall|j: int| 0 <= j < rr.len() ==> s0 <= (#[trigger] rr[j]).key
    &&& exists|j: int| 0 <= j < rr.len() && (#[trigger] rr[j]).key == s0
    &&& recs_sorted(lr, false)
    &&& recs_sorted(rr, false)
}

/// `le` and `re` split the entries `active` by lower fence bound: `le` holds
/// the lower half (rounded down), `re` the rest, whose smallest lower bound
/// is `s0`; each half is ordered by version.
pub open spec fn entries_key_split(active: Seq<Entry>, s0: u64, le: Seq<Entry>, re: Seq<Entry>) -> bool {
    &&& (le + re).to_multiset() == active.to_multiset()
    &&& le.len() == active.len() / 2
    &&& 0 < re.len()
    &&& forall|i: int, j: int| 0 <= i < le.len() && 0 <= j < re.len() ==> (#[trigger] le[i]).0.lower <= (#[trigger] re[j]).0.lower
    &&& forall|j: int| 0 <= j < re.len() ==> s0 <= (#[trigger] re[j]).0.lower
    &&& exists|j: int| 0 <= j < re.len() && (#[trigger] re[j]).0.lower == s0
    &&& entries_sorted(le, false)
    &&& entries_sorted(re, false)
}

/// Splits the records `live` by key into two halves, each ordered by insert
/// version; also returns the smallest key of the upper half.
pub fn key_split_records<P: Copy>(live: &Vec<RecordPoint<P>>) -> (r: (u64, Vec<RecordPoint<P>>, Vec<RecordPoint<P>>))
    requires
        live@.len() > 0,
    ensures
        records_key_split(live@, r.0, r.1@, r.2@),
{
    broadcast use vstd::seq_lib::group_to_multiset_ensures;
    let mut first = sort_records(live, true);
    let ghost all = first@;
    let middle = first.len() / 2;
    let second = first.split_off(middle);
    let s0 = second[0].key;
    let lr = sort_records(&first, false);
    let rr = sort_records(&second, false);
    proof {
        assert(all =~= first@ + second@);
        vstd::seq_lib::lemma_multiset_commutative(first@, second@);
        vstd::seq_lib::lemma_multiset_commutative(lr@, rr@);
        assert forall|i: int, j: int| 0 <= i < lr@.len() && 0 <= j < rr@.len() implies (#[trigger] lr@[i]).key <= (#[trigger] rr@[j]).key by {
            assert(lr@.to_multiset().count(lr@[i]) > 0);
            assert(first@.contains(lr@[i]));
            let a = choose|a: int| 0 <= a < first@.len() && first@[a] == lr@[i];
            assert(rr@.to_multiset().count(rr@[j]) > 0);
            assert(second@.contains(rr@[j]));
            let b = choose|b: int| 0 <= b < second@.len() && second@[b] == rr@[j];
            assert(all[a] == first@[a]);
            assert(all[middle + b] == second@[b]);
            assert(rec_order(all[a], true) <= rec_order(all[middle + b], true));
        }
        assert forall|j: int| 0 <= j < rr@.len() implies s0 <= (#[trigger] rr@[j]).key by {
            assert(rr@.to_multiset().count(rr@[j]) > 0);
            assert(second@.contains(rr@[j]));
            let b = choose|b: int| 0 <= b < second@.len() && second@[b] == rr@[j];
            assert(all[middle + b] == second@[b]);
            assert(all[middle as int] == second@[0]);
            assert(rec_order(all[middle as int], true) <= rec_order(all[middle + b], true));
        }
        assert(second@.to_multiset().count(second@[0]) > 0);
        assert(rr@.contains(second@[0]));
        let j = choose|j: int| 0 <= j < rr@.len() && rr@[j] == second@[0];
        assert(rr@[j].key == s0);
    }
    (s0, lr, rr)
}

/// Splits the entries `active` by lower fence bound into two halves, each
/// ordered by version; also returns the smallest lower bound of the upper half.
pub fn key_split_entries(active: &Vec<Entry>) -> (r: (u64, Vec<Entry>, Vec<Entry>))
    requires
        active@.len() > 0,
    ensures
        entries_key_split(active@, r.0, r.1@, r.2@),
{
    broadcast use vstd::seq_lib::group_to_multiset_ensures;
    let mut first = sort_entries(active, true);
    let ghost all = first@;
    let middle = first.len() / 2;
    let second = first.split_off(middle);
    let s0 = second[0].0.lower;
    let le = sort_entries(&first, false);
    let re = sort_entries(&second, false);
    proof {
        assert(all =~= first@ + second@);
        vstd::seq_lib::lemma_multiset_commutative(first@, second@);
        vstd::seq_lib::lemma_multiset_commutative(le@, re@);
        assert forall|i: int, j: int| 0 <= i < le@.len() && 0 <= j < re@.len() implies (#[trigger] le@[i]).0.lower <= (#[trigger] re@[j]).0.lower by {
            assert(le@.to_multiset().count(le@[i]) > 0);
            assert(first@.contains(le@[i]));
            let a = choose|a: int| 0 <= a < first@.len() && first@[a] == le@[i];
            assert(re@.to_multiset().count(re@[j]) > 0);
            assert(second@.contains(re@[j]));
            let b = choose|b: int| 0 <= b < second@.len() && second@[b] == re@[j];
            assert(all[a] == first@[a]);
            assert(all[middle + b] == second@[b]);
            assert(entry_order(all[a], true) <= entry_order(all[middle + b], true));
        }
        assert forall|j: int| 0 <= j < re@.len() implies s0 <= (#[trigger] re@[j]).0.lower by {
            assert(re@.to_multiset().count(re@[j]) > 0);
            assert(second@.contains(re@[j]));
            let b = choose|b: int| 0 <= b < second@.len() && second@[b] == re@[j];
            assert(all[middle + b] == second@[b]);
            assert(all[middle as int] == second@[0]);
            assert(entry_order(all[middle as int], true) <= entry_order(all[middle + b], true));
        }
        assert(second@.to_multiset().count(second@[0]) > 0);
        assert(re@.contains(second@[0]));
        let j = choose|j: int| 0 <= j < re@.len() && re@[j] == second@[0];
        assert(re@[j].0.lower == s0);
    }
    (s0, le, re)
}

/// The entries of an index page, in slot order.
pub open spec fn page_entries<const FAN_OUT: usize>(p: InternalPage<FAN_OUT>) -> Seq<Entry> {
    Seq::new(p.spec_len() as nat, |i: int| (p.key_interval_region@[i], p.version_region@[i], p.pointer_region@[i]))
}

proof fn lemma_count_live_all<P>(recs: Seq<RecordPoint<P>>)
    requires
        forall|i: int| 0 <= i < recs.len() ==> (#[trigger] recs[i]).version.delete_version is None,
    ensures
        count_live(recs) == recs.len(),
    decreases recs.len(),
{
    if recs.len() > 0 {
        let d = recs.drop_last();
        assert forall|i: int| 0 <= i < d.len() implies (#[trigger] d[i]).version.delete_version is None by {
            assert(d[i] == recs[i]);
        }
        lemma_count_live_all(d);
        assert(recs[recs.len() - 1] == recs.last());
    }
}

/// A block holding a leaf whose records are `recs`, all of them live.
fn leaf_block_of<const FAN_OUT: usize, const NUM_RECORDS: usize, P: Copy>(recs: Vec<RecordPoint<P>>) -> (b: Block<FAN_OUT, NUM_RECORDS, P>)
    requires
        geometry_ok(FAN_OUT, NUM_RECORDS),
        recs@.len() <= NUM_RECORDS,
        forall|i: int| 0 <= i < recs@.len() ==> (#[trigger] recs@[i]).version.delete_version is None,
    ensures
        b.wf(),
        b.node_data matches Node::Leaf(l) && l.records() == recs@ && l.counts_ok(),
{
    let ghost rs = recs@;
    let mut page = LeafPage::<NUM_RECORDS, P>::new();
    page.bulk_push(recs);
    proof {
        lemma_count_live_all(rs);
    }
    Block { node_data: Node::Leaf(page) }
}

/// A block holding an index page whose entries are `entries`.
fn index_block_of<const FAN_OUT: usize, const NUM_RECORDS: usize, P: Copy>(entries: Vec<Entry>) -> (b: Block<FAN_OUT, NUM_RECORDS, P>)
    requires
        geometry_ok(FAN_OUT, NUM_RECORDS),
        entries@.len() <= FAN_OUT,
    ensures
        b.wf(),
        b.node_data matches Node::Index(p) && page_entries(p) == entries@,
{
    let ghost es = entries@;
    let mut page = InternalPage::<FAN_OUT>::new();
    page.bulk_push(entries);
    proof {
        assert(page_entries(page) =~= es);
    }
    Block { node_data: Node::Index(page) }
}

/// What a split of block `old_blk`, whose key range is `fence`, leaves in
/// `blocks`: for a key split, two blocks holding the halves of its live
/// content (split by key, each ordered by version) with the fences of the
/// halves; for a version split, one block holding its live content in order.
pub open spec fn split_content<const FAN_OUT: usize, const NUM_RECORDS: usize, P: Copy>(
    old_blk: Block<FAN_OUT, NUM_RECORDS, P>,
    fence: Interval,
    blocks: Seq<Block<FAN_OUT, NUM_RECORDS, P>>,
    r: BlockSplit,
) -> bool {
    match old_blk.node_data {
        Node::Leaf(l) => match r {
            BlockSplit::ByKey(lf, x, rf, y) => {
                &&& (lf, rf) == split_fences(fence, rf.lower)
                &&& blocks[x as int].node_data matches Node::Leaf(lx)
                &&& blocks[y as int].node_data matches Node::Leaf(ly)
                &&& records_key_split(live_of(l.records()), rf.lower, lx.records(), ly.records())
            },
            BlockSplit::ByVersion(x) => {
                &&& blocks[x as int].node_data matches Node::Leaf(lx)
                &&& lx.records() == live_of(l.records())
            },
        },
        Node::Index(p) => match r {
            BlockSplit::ByKey(lf, x, rf, y) => {
                &&& (lf, rf) == split_fences(fence, rf.lower)
                &&& blocks[x as int].node_data matches Node::Index(px)
                &&& blocks[y as int].node_data matches Node::Index(py)
                &&& entries_key_split(active_of(p, p.spec_len()), rf.lower, page_entries(px), page_entries(py))
            },
            BlockSplit::ByVersion(x) => {
                &&& blocks[x as int].node_data matches Node::Index(px)
                &&& page_entries(px) == active_of(p, p.spec_len())
            },
        },
    }
}

/// The most blocks the tree takes: block positions stay below this bound.
pub const BLOCK_LIMIT: u64 = 0xFFFF_FFFF_FFFF_F000;

/// Entries (live and dead) at which a block of this kind counts as full.
pub open spec fn overflow_units<const FAN_OUT: usize, const NUM_RECORDS: usize>(is_leaf: bool) -> int {
    if is_leaf { NUM_RECORDS as int } else { FAN_OUT - 1 }
}

/// How a block on a writer's path has to be reorganised.
pub open spec fn block_degree<const FAN_OUT: usize, const NUM_RECORDS: usize, P: Copy>(blk: Block<FAN_OUT, NUM_RECORDS, P>) -> BlockUnsafeDegree {
    let leaf = blk.node_data is Leaf;
    let m = Block::<FAN_OUT, NUM_RECORDS, P>::spec_max_units(leaf);
    spec_unsafe_degree(
        node_active(blk.node_data),
        node_len(blk.node_data) - node_active(blk.node_data),
        overflow_units::<FAN_OUT, NUM_RECORDS>(leaf),
        (m + 4) / 5,
        (2 * m + 4) / 5,
    )
}

/// How a root block has to be reorganised.
pub open spec fn root_degree<const FAN_OUT: usize, const NUM_RECORDS: usize, P: Copy>(blk: Block<FAN_OUT, NUM_RECORDS, P>) -> BlockUnsafeDegree {
    let leaf = blk.node_data is Leaf;
    spec_unsafe_degree_root(
        node_active(blk.node_data),
        node_len(blk.node_data) - node_active(blk.node_data),
        leaf,
        overflow_units::<FAN_OUT, NUM_RECORDS>(leaf),
    )
}

/// The entries an index page gains when a child with fence `fence` is
/// replaced, at version `w`, as split `s` says.
pub open spec fn replacement_entries(s: BlockSplit, fence: Interval, w: Version) -> Seq<Entry> {
    match s {
        BlockSplit::ByKey(lf, x, rf, y) => seq![(lf, w, x), (rf, w, y)],
        BlockSplit::ByVersion(x) => seq![(fence, w, x)],
    }
}

/// The entries an index page gains when a sparse child with fence `sf` is
/// reorganised, at version `w`, as merge `m` says.
pub open spec fn merge_entries(m: MergeResult, sf: Interval, w: Version) -> Seq<Entry> {
    match m {
        MergeResult::Merged(_, cf, nb) => seq![(
            Interval {
                lower: if sf.lower <= cf.lower { sf.lower } else { cf.lower },
                upper: if sf.upper >= cf.upper { sf.upper } else { cf.upper },
            },
            w,
            nb,
        )],
        MergeResult::KeySplit(_, BlockSplit::ByKey(lf, x, rf, y)) => seq![(lf, w, x), (rf, w, y)],
        _ => Seq::empty(),
    }
}

/// `entries` with the obsolete mark set on entry `j`.
pub open spec fn mark_obsolete_at(entries: Seq<Entry>, j: int) -> Seq<Entry> {
    entries.update(j, (entries[j].0, entries[j].1 | 0x8000_0000_0000_0000u64, entries[j].2))
}

/// Merges `a` and `b` by insert version, taking from `a` while its next
/// record is not newer than the next of `b`.
pub fn merge_records_by_version<P: Copy>(a: &Vec<RecordPoint<P>>, b: &Vec<RecordPoint<P>>) -> (r: Vec<RecordPoint<P>>)
    ensures
        r@.to_multiset() == (a@ + b@).to_multiset(),
        r@.len() == a@.len() + b@.len(),
        recs_sorted(a@, false) && recs_sorted(b@, false) ==> recs_sorted(r@, false),
{
    let mut out: Vec<RecordPoint<P>> = Vec::new();
    let mut i: usize = 0;
    let mut j: usize = 0;
    proof {
        assert(out@ =~= a@.take(0) + b@.take(0));
    }
    while i < a.len() || j < b.len()
        invariant
            i <= a@.len(),
            j <= b@.len(),
            out@.to_multiset() == (a@.take(i as int) + b@.take(j as int)).to_multiset(),
            out@.len() == i + j,
            recs_sorted(a@, false) && recs_sorted(b@, false) ==> {
                &&& recs_sorted(out@, false)
                &&& out@.len() > 0 && i < a@.len() ==> out@.last().version.insert_version <= a@[i as int].version.insert_version
                &&& out@.len() > 0 && j < b@.len() ==> out@.last().version.insert_version <= b@[j as int].version.insert_version
            },
        decreases a@.len() + b@.len() - i - j,
    {
        let ghost prev = out@;
        let take_a = if i < a.len() && j < b.len() {
            a[i].version.insert_version <= b[j].version.insert_version
        } else {
            i < a.len()
        };
        if take_a {
            let x = a[i];
            out.push(x);
            proof {
                vstd::seq_lib::to_multiset_build(prev, x);
                vstd::seq_lib::lemma_multiset_commutative(a@.take(i as int), b@.take(j as int));
                vstd::seq_lib::lemma_multiset_commutative(a@.take(i + 1), b@.take(j as int));
                assert(a@.take(i + 1) =~= a@.take(i as int).push(x));
                vstd::seq_lib::to_multiset_build(a@.take(i as int), x);
            }
            i = i + 1;
        } else {
            let x = b[j];
            out.push(x);
            proof {
                vstd::seq_lib::to_multiset_build(prev, x);
                vstd::seq_lib::lemma_multiset_commutative(a@.take(i as int), b@.take(j as int));
                vstd::seq_lib::lemma_multiset_commutative(a@.take(i as int), b@.take(j + 1));
                assert(b@.take(j + 1) =~= b@.take(j as int).push(x));
                vstd::seq_lib::to_multiset_build(b@.take(j as int), x);
            }
            j = j + 1;
        }
        proof {
            if recs_sorted(a@, false) && recs_sorted(b@, false) {
                assert forall|p: int, q: int| 0 <= p <= q < out@.len() implies rec_order(#[trigger] out@[p], false)
                    <= rec_order(#[trigger] out@[q], false) by {
                    if q == out@.len() - 1 && p < q {
                        assert(out@[p] == prev[p]);
                        assert(rec_order(prev[p], false) <= rec_order(prev.last(), false));
                    } else if q < out@.len() - 1 {
                        assert(out@[p] == prev[p]);
                        assert(out@[q] == prev[q]);
                    }
                }
            }
        }
    }
    proof {
        assert(a@.take(a@.len() as int) =~= a@);
        assert(b@.take(b@.len() as int) =~= b@);
    }
    out
}

/// Merges `a` and `b` by version, taking from `a` while its next entry is not
/// newer than the next of `b`.
pub fn merge_entries_by_version(a: &Vec<Entry>, b: &Vec<Entry>) -> (r: Vec<Entry>)
    ensures
        r@.to_multiset() == (a@ + b@).to_multiset(),
        r@.len() == a@.len() + b@.len(),
        entries_sorted(a@, false) && entries_sorted(b@, false) ==> entries_sorted(r@, false),
{
    let mut out: Vec<Entry> = Vec::new();
    let mut i: usize = 0;
    let mut j: usize = 0;
    proof {
        assert(out@ =~= a@.take(0) + b@.take(0));
    }
    while i < a.len() || j < b.len()
        invariant
            i <= a@.len(),
            j <= b@.len(),
            out@.to_multiset() == (a@.take(i as int) + b@.take(j as int)).to_multiset(),
            out@.len() == i + j,
            entries_sorted(a@, false) && entries_sorted(b@, false) ==> {
                &&& entries_sorted(out@, false)
                &&& out@.len() > 0 && i < a@.len() ==> out@.last().1 <= a@[i as int].1
                &&& out@.len() > 0 && j < b@.len() ==> out@.last().1 <= b@[j as int].1
            },
        decreases a@.len() + b@.len() - i - j,
    {
        let ghost prev = out@;
        let take_a = if i < a.len() && j < b.len() {
            a[i].1 <= b[j].1
        } else {
            i < a.len()
        };
        if take_a {
            let x = a[i];
            out.push(x);
            proof {
                vstd::seq_lib::to_multiset_build(prev, x);
                vstd::seq_lib::lemma_multiset_commutative(a@.take(i as int), b@.take(j as int));
                vstd::seq_lib::lemma_multiset_commutative(a@.take(i + 1), b@.take(j as int));
                assert(a@.take(i + 1) =~= a@.take(i as int).push(x));
                vstd::seq_lib::to_multiset_build(a@.take(i as int), x);
            }
            i = i + 1;
        } else {
            let x = b[j];
            out.push(x);
            proof {
                vstd::seq_lib::to_multiset_build(prev, x);
                vstd::seq_lib::lemma_multiset_commutative(a@.take(i as int), b@.take(j as int));
                vstd::seq_lib::lemma_multiset_commutative(a@.take(i as int), b@.take(j + 1));
                assert(b@.take(j + 1) =~= b@.take(j as int).push(x));
                vstd::seq_lib::to_multiset_build(b@.take(j as int), x);
            }
            j = j + 1;
        }
        proof {
            if entries_sorted(a@, false) && entries_sorted(b@, false) {
                assert forall|p: int, q: int| 0 <= p <= q < out@.len() implies entry_order(#[trigger] out@[p], false)
                    <= entry_order(#[trigger] out@[q], false) by {
                    if q == out@.len() - 1 && p < q {
                        assert(out@[p] == prev[p]);
                        assert(entry_order(prev[p], false) <= entry_order(prev.last(), false));
                    } else if q < out@.len() - 1 {
                        assert(out@[p] == prev[p]);
                        assert(out@[q] == prev[q]);
                    }
                }
            }
        }
    }
    proof {
        assert(a@.take(a@.len() as int) =~= a@);
        assert(b@.take(b@.len() as int) =~= b@);
    }
    out
}

/// How a sparse block is reorganised together with a sibling: both are
/// replaced by one merged block, or, when that would be too full, by two
/// blocks that split their joint key range. `Error` when there is no sibling.
pub enum MergeResult {
    Merged(usize, Interval, BlockID),
    KeySplit(usize, BlockSplit),
    Error,
}

/// Entry `j` of `page` may be merged with entry `s`: another active entry.
pub open spec fn is_candidate<const FAN_OUT: usize>(page: InternalPage<FAN_OUT>, s: int, j: int) -> bool {
    &&& 0 <= j < page.spec_len()
    &&& j != s
    &&& !spec_obsolete(page.version_region@[j])
}

/// Entry `a` comes before entry `b` by lower fence bound, then by position.
pub open spec fn lex_le<const FAN_OUT: usize>(page: InternalPage<FAN_OUT>, a: int, b: int) -> bool {
    let la = page.key_interval_region@[a].lower;
    let lb = page.key_interval_region@[b].lower;
    la < lb || (la == lb && a <= b)
}

/// `r` is the sibling that entry `s` of `page` is merged with: among the
/// other active entries, the first (by lower bound, then position) whose
/// lower bound is not below that of `s`; failing that, the last one; `None`
/// when there is no other active entry.
pub open spec fn candidate_choice<const FAN_OUT: usize>(page: InternalPage<FAN_OUT>, s: int, r: Option<int>) -> bool {
    let t = page.key_interval_region@[s].lower;
    match r {
        None => forall|j: int| !is_candidate(page, s, j),
        Some(c) => {
            &&& is_candidate(page, s, c)
            &&& if exists|j: int| is_candidate(page, s, j) && page.key_interval_region@[j].lower >= t {
                &&& page.key_interval_region@[c].lower >= t
                &&& forall|j: int| is_candidate(page, s, j) && page.key_interval_region@[j].lower >= t ==> lex_le(page, c, j)
            } else {
                forall|j: int| is_candidate(page, s, j) ==> lex_le(page, j, c)
            }
        },
    }
}

/// The sibling entry `s` of `page` is merged with (see `candidate_choice`).
pub fn find_merge_candidate<const FAN_OUT: usize>(page: &InternalPage<FAN_OUT>, s: usize) -> (r: Option<usize>)
    requires
        page.wf(),
        s < page.spec_len(),
    ensures
        candidate_choice(*page, s as int, match r { Some(c) => Some(c as int), None => None }),
{
    let t = page.key_interval_region[s].lower;
    let n = page.version_region.len();
    let mut best_ge: Option<usize> = None;
    let mut best_any: Option<usize> = None;
    let mut j: usize = 0;
    while j < n
        invariant
            j <= n,
            n == page.spec_len(),
            page.wf(),
            s < n,
            t == page.key_interval_region@[s as int].lower,
            match best_ge {
                None => forall|k: int| 0 <= k < j && is_candidate(*page, s as int, k) ==> page.key_interval_region@[k].lower < t,
                Some(c) => c < j && is_candidate(*page, s as int, c as int) && page.key_interval_region@[c as int].lower >= t
                    && forall|k: int| 0 <= k < j && is_candidate(*page, s as int, k) && page.key_interval_region@[k].lower >= t
                        ==> lex_le(*page, c as int, k),
            },
            match best_any {
                None => forall|k: int| 0 <= k < j ==> !is_candidate(*page, s as int, k),
                Some(c) => c < j && is_candidate(*page, s as int, c as int)
                    && forall|k: int| 0 <= k < j && is_candidate(*page, s as int, k) ==> lex_le(*page, k, c as int),
            },
        decreases n - j,
    {
        if j != s && page.version_region[j].is_active() {
            let lj = page.key_interval_region[j].lower;
            if lj >= t {
                match best_ge {
                    None => {
                        best_ge = Some(j);
                    },
                    Some(c) => {
                        if lj < page.key_interval_region[c].lower {
                            best_ge = Some(j);
                        }
                    },
                }
            }
            match best_any {
                None => {
                    best_any = Some(j);
                },
                Some(c) => {
                    if lj >= page.key_interval_region[c].lower {
                        best_any = Some(j);
                    }
                },
            }
        }
        j = j + 1;
    }
    match best_ge {
        Some(c) => Some(c),
        None => best_any,
    }
}

/// What a merge of the sparse block `simba` (fence `sf`) with its sibling
/// `cand` (fence `cf`) leaves in `blocks`: one block with the live content
/// of both, or two blocks splitting the joint live content by key, with the
/// fences of the halves over the joint key range.
pub open spec fn merge_content<const FAN_OUT: usize, const NUM_RECORDS: usize, P: Copy>(
    simba: Block<FAN_OUT, NUM_RECORDS, P>,
    cand: Block<FAN_OUT, NUM_RECORDS, P>,
    sf: Interval,
    cf: Interval,
    blocks: Seq<Block<FAN_OUT, NUM_RECORDS, P>>,
    r: MergeResult,
) -> bool {
    let lo = if cf.lower <= sf.lower { cf.lower } else { sf.lower };
    let hi = if cf.upper >= sf.upper { cf.upper } else { sf.upper };
    match r {
        MergeResult::Merged(_, _, nb) => match (simba.node_data, cand.node_data) {
            (Node::Leaf(ls), Node::Leaf(lc)) => {
                &&& blocks[nb as int].node_data matches Node::Leaf(ln)
                &&& ln.records().to_multiset() == (live_of(ls.records()) + live_of(lc.records())).to_multiset()
                &&& recs_sorted(live_of(ls.records()), false) && recs_sorted(live_of(lc.records()), false)
                    ==> recs_sorted(ln.records(), false)
            },
            (Node::Index(ps), Node::Index(pc)) => {
                &&& blocks[nb as int].node_data matches Node::Index(pn)
                &&& page_entries(pn).to_multiset() == (active_of(ps, ps.spec_len()) + active_of(pc, pc.spec_len())).to_multiset()
                &&& entries_sorted(active_of(ps, ps.spec_len()), false) && entries_sorted(active_of(pc, pc.spec_len()), false)
                    ==> entries_sorted(page_entries(pn), false)
            },
            _ => false,
        },
        MergeResult::KeySplit(_, BlockSplit::ByKey(lf, x, rf, y)) => {
            &&& lf == Interval { lower: lo, upper: spec_dec_key(rf.lower) }
            &&& rf.upper == hi
            &&& match (simba.node_data, cand.node_data) {
                (Node::Leaf(ls), Node::Leaf(lc)) => {
                    &&& blocks[x as int].node_data matches Node::Leaf(lx)
                    &&& blocks[y as int].node_data matches Node::Leaf(ly)
                    &&& records_key_split(live_of(lc.records()) + live_of(ls.records()), rf.lower, lx.records(), ly.records())
                },
                (Node::Index(ps), Node::Index(pc)) => {
                    &&& blocks[x as int].node_data matches Node::Index(px)
                    &&& blocks[y as int].node_data matches Node::Index(py)
                    &&& entries_key_split(active_of(ps, ps.spec_len()) + active_of(pc, pc.spec_len()), rf.lower,
                        page_entries(px), page_entries(py))
                },
                _ => false,
            }
        },
        _ => false,
    }
}

impl<const FAN_OUT: usize, const NUM_RECORDS: usize, P: Copy> Block<FAN_OUT, NUM_RECORDS, P> {
    /// How the block, met on a writer's path below the root, has to be
    /// reorganised: at most 20 % live entries, or a full block with at most
    /// 40 % live, calls for a merge; another full block for a split.
    pub fn degree(&self) -> (r: BlockUnsafeDegree)
        requires
            self.wf(),
        ensures
            r == block_degree(*self),
    {
        let (active, dead) = self.active_dead();
        let is_leaf = self.is_leaf();
        let overflow = if is_leaf { NUM_RECORDS } else { FAN_OUT - 1 };
        if active <= self.filling_20_percent(is_leaf) {
            BlockUnsafeDegree::ActiveUnderflow
        } else if active + dead >= overflow && active <= self.filling_40_percent(is_leaf) {
            BlockUnsafeDegree::ActiveUnderflow
        } else if active + dead >= overflow {
            BlockUnsafeDegree::Overflow
        } else {
            BlockUnsafeDegree::Safe
        }
    }

    /// How the block, as the root, has to be reorganised: an index root with a
    /// single live child collapses, a full root splits.
    pub fn degree_root(&self) -> (r: BlockUnsafeDegree)
        requires
            self.wf(),
        ensures
            r == root_degree(*self),
    {
        let (active, dead) = self.active_dead();
        let is_leaf = self.is_leaf();
        let overflow = if is_leaf { NUM_RECORDS } else { FAN_OUT - 1 };
        if active == 1 && !is_leaf {
            BlockUnsafeDegree::ActiveUnderflow
        } else if active + dead >= overflow {
            BlockUnsafeDegree::Overflow
        } else {
            BlockUnsafeDegree::Safe
        }
    }
}

impl<const FAN_OUT: usize, const NUM_RECORDS: usize, P: Copy> MVTreeSt<FAN_OUT, NUM_RECORDS, P> {
    /// The block of the newest root.
    pub open spec fn head_root_block(self) -> int {
        self.root.history()[self.root.head()].payload.0 as int
    }

    /// The newest root is a single leaf with room for a record, and neither
    /// blocks nor commit versions are exhausted: a write needs no
    /// reorganisation and cannot fail.
    pub open spec fn leaf_root_writable(self) -> bool {
        &&& self.blocks@[self.head_root_block()].node_data is Leaf
        &&& root_degree(self.blocks@[self.head_root_block()]) == BlockUnsafeDegree::Safe
        &&& self.blocks@.len() < BLOCK_LIMIT
        &&& self.global_clock.0 < OBSOLETE_VERSION_MARK - 1
    }

    /// The newest root can be reorganised: a commit version is left, the root
    /// began before the clock, a block can be added, the root history can grow
    /// and the tree can grow by a level.
    pub open spec fn root_reorg_ok(self) -> bool {
        &&& self.global_clock.0 < OBSOLETE_VERSION_MARK - 1
        &&& self.root.history()[self.root.head()].insert_version < self.global_clock.0
        &&& self.blocks@.len() < BLOCK_LIMIT
        &&& self.root.history().len() < usize::MAX - 1
        &&& self.root.history()[self.root.head()].payload.1 < u16::MAX
    }

    /// Everything but the blocks and their levels is the same in both trees.
    pub open spec fn same_meta(self, other: Self) -> bool {
        &&& self.root == other.root
        &&& self.global_clock == other.global_clock
        &&& self.block_manager == other.block_manager
        &&& self.locking_strategy == other.locking_strategy
        &&& self.min_key == other.min_key
        &&& self.max_key == other.max_key
    }

    /// Whether a block may be added at `level` to the tree: it is
    /// well formed, at the level its kind calls for, and points one level down.
    pub open spec fn fits(self, blk: Block<FAN_OUT, NUM_RECORDS, P>, level: Height) -> bool {
        &&& blk.wf()
        &&& level >= 1
        &&& (level == 1 <==> blk.node_data is Leaf)
        &&& match blk.node_data {
            Node::Leaf(l) => l.counts_ok(),
            Node::Index(page) => forall|j: int|
                #![trigger page.pointer_region@[j]]
                0 <= j < page.spec_len() ==> {
                    &&& page.pointer_region@[j] < self.blocks@.len()
                    &&& self.levels@[page.pointer_region@[j] as int] + 1 == level
                },
        }
    }

    /// Adds `blk` as a new block at `level`; returns its position.
    fn append_block(&mut self, blk: Block<FAN_OUT, NUM_RECORDS, P>, level: Height) -> (r: BlockID)
        requires
            old(self).wf(),
            old(self).fits(blk, level),
            old(self).blocks@.len() + 1 < u64::MAX,
        ensures
            final(self).wf(),
            final(self).same_meta(*old(self)),
            r == old(self).blocks@.len(),
            final(self).blocks@ == old(self).blocks@.push(blk),
            final(self).levels@ == old(self).levels@.push(level),
    {
        let r = self.blocks.len() as BlockID;
        let ghost old_self = *self;
        self.blocks.push(blk);
        self.levels.push(level);
        proof {
            assert forall|b: int| 0 <= b < self.blocks@.len() implies self.block_ok(b) by {
                if b < old_self.blocks@.len() {
                    assert(old_self.block_ok(b));
                    assert(self.blocks@[b] == old_self.blocks@[b]);
                    match self.blocks@[b].node_data {
                        Node::Index(page) => {
                            assert forall|j: int| #![trigger page.pointer_region@[j]] 0 <= j < page.spec_len() implies {
                                &&& page.pointer_region@[j] < self.blocks@.len()
                                &&& self.levels@[page.pointer_region@[j] as int] + 1 == self.levels@[b]
                            } by {
                                assert(page.pointer_region@[j] < old_self.blocks@.len());
                            }
                        },
                        Node::Leaf(_) => {},
                    }
                } else {
                    match self.blocks@[b].node_data {
                        Node::Index(page) => {
                            assert forall|j: int| #![trigger page.pointer_region@[j]] 0 <= j < page.spec_len() implies {
                                &&& page.pointer_region@[j] < self.blocks@.len()
                                &&& self.levels@[page.pointer_region@[j] as int] + 1 == self.levels@[b]
                            } by {
                                assert(page.pointer_region@[j] < old_self.blocks@.len());
                            }
                        },
                        Node::Leaf(_) => {},
                    }
                }
            }
            assert forall|i: int| #![trigger self.root.history()[i]] 0 <= i < self.root.history().len() implies {
                let rt = self.root.history()[i].payload;
                &&& rt.0 < self.blocks@.len()
                &&& self.levels@[rt.0 as int] == rt.1
            } by {
                assert(old_self.root.history()[i] == self.root.history()[i]);
            }
        }
        r
    }

    /// Builds the blocks that replace block `b`, whose key range is `fence`,
    /// and adds them at `b`'s level: a key split when at least 80 % of the
    /// capacity is live, a version split otherwise. Block `b` itself is kept.
    #[verifier::spinoff_prover]
    pub fn split(&mut self, b: BlockID, fence: Interval) -> (r: BlockSplit)
        requires
            old(self).wf(),
            b < old(self).blocks@.len(),
            old(self).blocks@.len() + 2 < u64::MAX,
        ensures
            final(self).wf(),
            final(self).same_meta(*old(self)),
            final(self).blocks@.len() == old(self).blocks@.len() + if r is ByKey { 2int } else { 1int },
            final(self).blocks@.take(old(self).blocks@.len() as int) == old(self).blocks@,
            final(self).levels@.take(old(self).blocks@.len() as int) == old(self).levels@,
            forall|i: int| old(self).blocks@.len() <= i < final(self).blocks@.len()
                ==> final(self).levels@[i] == old(self).levels@[b as int],
            r matches BlockSplit::ByKey(_, x, _, y) ==> x == old(self).blocks@.len() && y == old(self).blocks@.len() + 1,
            r matches BlockSplit::ByVersion(x) ==> x == old(self).blocks@.len(),
            (r is ByKey) == (node_active(old(self).blocks@[b as int].node_data)
                >= (4 * Block::<FAN_OUT, NUM_RECORDS, P>::spec_max_units(old(self).blocks@[b as int].node_data is Leaf) + 4) / 5),
            split_content(old(self).blocks@[b as int], fence, final(self).blocks@, r),
    {
        broadcast use vstd::seq_lib::group_to_multiset_ensures;
        let ghost old_self = *self;
        let n = self.blocks.len();
        let blk = &self.blocks[b as usize];
        let level = self.levels[b as usize];
        proof {
            assert(self.blocks@[b as int] == *blk);
            assert(self.block_ok(b as int));
        }
        let is_leaf = blk.is_leaf();
        let active = blk.active_count();
        let f80 = blk.filling_80_percent(is_leaf);
        match &blk.node_data {
            Node::Leaf(l) => {
                let live = live_records(l);
                proof {
                    lemma_live_of(l.records());
                }
                if active >= f80 {
                    let (s0, lr, rr) = key_split_records(&live);
                    proof {
                        assert forall|i: int| 0 <= i < lr@.len() implies (#[trigger] lr@[i]).version.delete_version is None by {
                            vstd::seq_lib::lemma_multiset_commutative(lr@, rr@);
                            assert((lr@ + rr@).to_multiset().count(lr@[i]) > 0) by {
                                assert((lr@ + rr@)[i] == lr@[i]);
                            }
                            assert(live@.contains(lr@[i]));
                        }
                        assert forall|i: int| 0 <= i < rr@.len() implies (#[trigger] rr@[i]).version.delete_version is None by {
                            assert((lr@ + rr@)[lr@.len() + i] == rr@[i]);
                            assert((lr@ + rr@).to_multiset().count(rr@[i]) > 0);
                            assert(live@.contains(rr@[i]));
                        }
                        vstd::seq_lib::to_multiset_len(lr@ + rr@);
                        vstd::seq_lib::to_multiset_len(live@);
                        crate::mv_page_model::record_history::lemma_count_live_bound(l.records());
                    }
                    let lf = Interval::new(fence.lower, dec_key(s0));
                    let rf = Interval::new(s0, fence.upper);
                    let left = leaf_block_of::<FAN_OUT, NUM_RECORDS, P>(lr);
                    let right = leaf_block_of::<FAN_OUT, NUM_RECORDS, P>(rr);
                    let x = self.append_block(left, level);
                    let y = self.append_block(right, level);
                    proof {
                        assert(self.blocks@.take(n as int) =~= old_self.blocks@);
                        assert(self.levels@.take(n as int) =~= old_self.levels@);
                    }
                    BlockSplit::ByKey(lf, x, rf, y)
                } else {
                    let nb = leaf_block_of::<FAN_OUT, NUM_RECORDS, P>(live);
                    let x = self.append_block(nb, level);
                    proof {
                        assert(self.blocks@.take(n as int) =~= old_self.blocks@);
                        assert(self.levels@.take(n as int) =~= old_self.levels@);
                    }
                    BlockSplit::ByVersion(x)
                }
            },
            Node::Index(p) => {
                let act = active_entries(p);
                proof {
                    lemma_active_of(*p, p.spec_len());
                    assert(p.version_region@.take(p.spec_len()) =~= p.version_region@);
                    crate::mv_page_model::internal_page::lemma_count_active_bound(p.version_region@);
                }
                let ghost pg = *p;
                if active >= f80 {
                    let (s0, le, re) = key_split_entries(&act);
                    proof {
                        assert forall|i: int| #![trigger le@[i].2] 0 <= i < le@.len() implies {
                            &&& le@[i].2 < old_self.blocks@.len()
                            &&& old_self.levels@[le@[i].2 as int] + 1 == level
                        } by {
                            vstd::seq_lib::lemma_multiset_commutative(le@, re@);
                            assert((le@ + re@)[i] == le@[i]);
                            assert((le@ + re@).to_multiset().count(le@[i]) > 0);
                            assert(act@.contains(le@[i]));
                            let k = choose|k: int| 0 <= k < act@.len() && act@[k] == le@[i];
                            assert(act@[k] == le@[i]);
                        }
                        assert forall|i: int| #![trigger re@[i].2] 0 <= i < re@.len() implies {
                            &&& re@[i].2 < old_self.blocks@.len()
                            &&& old_self.levels@[re@[i].2 as int] + 1 == level
                        } by {
                            vstd::seq_lib::lemma_multiset_commutative(le@, re@);
                            assert((le@ + re@)[le@.len() + i] == re@[i]);
                            assert((le@ + re@).to_multiset().count(re@[i]) > 0);
                            assert(act@.contains(re@[i]));
                            let k = choose|k: int| 0 <= k < act@.len() && act@[k] == re@[i];
                            assert(act@[k] == re@[i]);
                        }
                        vstd::seq_lib::to_multiset_len(le@ + re@);
                        vstd::seq_lib::to_multiset_len(act@);
                    }
                    let lf = Interval::new(fence.lower, dec_key(s0));
                    let rf = Interval::new(s0, fence.upper);
                    let left = index_block_of::<FAN_OUT, NUM_RECORDS, P>(le);
                    let right = index_block_of::<FAN_OUT, NUM_RECORDS, P>(re);
                    proof {
                        assert(old_self.fits(left, level)) by {
                            let lp = left.node_data->Index_0;
                            assert forall|j: int| #![trigger lp.pointer_region@[j]] 0 <= j < lp.spec_len() implies {
                                &&& lp.pointer_region@[j] < old_self.blocks@.len()
                                &&& old_self.levels@[lp.pointer_region@[j] as int] + 1 == level
                            } by {
                                assert(page_entries(lp)[j] == le@[j]);
                                assert(le@[j].2 == lp.pointer_region@[j]);
                            }
                        }
                    }
                    let x = self.append_block(left, level);
                    proof {
                        assert(self.fits(right, level)) by {
                            let rp = right.node_data->Index_0;
                            assert forall|j: int| #![trigger rp.pointer_region@[j]] 0 <= j < rp.spec_len() implies {
                                &&& rp.pointer_region@[j] < self.blocks@.len()
                                &&& self.levels@[rp.pointer_region@[j] as int] + 1 == level
                            } by {
                                assert(page_entries(rp)[j] == re@[j]);
                                assert(self.levels@[re@[j].2 as int] == old_self.levels@[re@[j].2 as int]);
                            }
                        }
                    }
                    let y = self.append_block(right, level);
                    proof {
                        assert(self.blocks@.take(n as int) =~= old_self.blocks@);
                        assert(self.levels@.take(n as int) =~= old_self.levels@);
                    }
                    BlockSplit::ByKey(lf, x, rf, y)
                } else {
                    let nb = index_block_of::<FAN_OUT, NUM_RECORDS, P>(act);
                    proof {
                        assert(old_self.fits(nb, level)) by {
                            let np = nb.node_data->Index_0;
                            assert forall|j: int| #![trigger np.pointer_region@[j]] 0 <= j < np.spec_len() implies {
                                &&& np.pointer_region@[j] < old_self.blocks@.len()
                                &&& old_self.levels@[np.pointer_region@[j] as int] + 1 == level
                            } by {
                                assert(page_entries(np)[j] == act@[j]);
                                let k = choose|k: int| 0 <= k < pg.spec_len() && act@[j] == (
                                    pg.key_interval_region@[k], pg.version_region@[k], pg.pointer_region@[k]);
                                assert(pg.pointer_region@[k] == act@[j].2);
                            }
                        }
                    }
                    let x = self.append_block(nb, level);
                    proof {
                        assert(self.blocks@.take(n as int) =~= old_self.blocks@);
                        assert(self.levels@.take(n as int) =~= old_self.levels@);
                    }
                    BlockSplit::ByVersion(x)
                }
            },
        }
    }

    /// Takes the next commit version from the clock; `None`, with nothing
    /// changed, once versions would reach the obsolete mark of index entries.
    pub fn start_tx_commit(&mut self) -> (r: Option<Version>)
        requires
            old(self).wf(),
        ensures
            final(self).gc_mode() == old(self).gc_mode(),
            final(self).wf(),
            final(self).blocks == old(self).blocks,
            final(self).levels == old(self).levels,
            final(self).root == old(self).root,
            final(self).block_manager == old(self).block_manager,
            final(self).locking_strategy == old(self).locking_strategy,
            final(self).min_key == old(self).min_key,
            final(self).max_key == old(self).max_key,
            old(self).version_inv() ==> final(self).version_inv(),
            match r {
                Some(w) => {
                    &&& w == old(self).global_clock.0
                    &&& w < OBSOLETE_VERSION_MARK - 1
                    &&& final(self).global_clock.0 == w + 1
                },
                None => {
                    &&& old(self).global_clock.0 >= OBSOLETE_VERSION_MARK - 1
                    &&& final(self).global_clock == old(self).global_clock
                },
            },
    {
        let ghost old_self = *self;
        let w = self.global_clock.current_version();
        if w >= OBSOLETE_VERSION_MARK - 1 {
            None
        } else {
            self.global_clock = crate::mv_sync::clock::GlobalClock(w + 1);
            proof {
                Self::lemma_blocks_ok_same(old_self, *self);
                if old_self.version_inv() {
                    assert forall|b: int| #![trigger self.blocks@[b]] 0 <= b < self.blocks@.len() implies (self.blocks@[b].node_data matches Node::Index(p)
                        ==> page_inv(p, self.global_clock.0)) by {
                        assert(old_self.blocks@[b] == self.blocks@[b]);
                    }
                    assert forall|i: int| 0 <= i < self.root.history().len() implies (#[trigger] self.root.history()[i]).insert_version <= self.global_clock.0 by {
                        assert(old_self.root.history()[i] == self.root.history()[i]);
                    }
                }
            }
            Some(w)
        }
    }

    /// Replaces child `child_index` of index block `mufasa`, which overflows:
    /// the child is split, the page gains the entries of the new blocks at the
    /// next commit version, and the old entry is marked obsolete. `None`, with
    /// nothing changed, when the clock is exhausted.
    #[verifier::spinoff_prover]
    #[verifier::rlimit(40)]
    pub fn on_overflow_node(&mut self, mufasa: BlockID, child_index: usize) -> (r: Option<(BlockSplit, Version)>)
        requires
            old(self).wf(),
            mufasa < old(self).blocks@.len(),
            old(self).blocks@.len() + 2 < u64::MAX,
            old(self).blocks@[mufasa as int].node_data matches Node::Index(page)
                && child_index < page.spec_len() && page.spec_len() + 2 <= FAN_OUT,
        ensures
            final(self).gc_mode() == old(self).gc_mode(),
            final(self).min_key == old(self).min_key,
            final(self).max_key == old(self).max_key,
            final(self).wf(),
            r is None ==> *final(self) == *old(self),
            old(self).global_clock.0 < OBSOLETE_VERSION_MARK - 1 ==> r is Some,
            old(self).evolves_to(*final(self), old(self).global_clock.0),
            old(self).version_inv() ==> final(self).version_inv(),
            r matches Some((s, w)) ==> ({
                let page = old(self).blocks@[mufasa as int].node_data->Index_0;
                let n = old(self).blocks@.len();
                let child = page.pointer_region@[child_index as int];
                let fence = page.key_interval_region@[child_index as int];
                &&& w == old(self).global_clock.0
                &&& final(self).global_clock.0 == w + 1
                &&& w < OBSOLETE_VERSION_MARK - 1
                &&& final(self).root == old(self).root
                &&& final(self).blocks@.len() == n + if s is ByKey { 2int } else { 1int }
                &&& forall|b: int| 0 <= b < n && b != mufasa ==> final(self).blocks@[b] == old(self).blocks@[b]
                &&& final(self).levels@.take(n as int) == old(self).levels@
                &&& forall|i: int| n <= i < final(self).blocks@.len() ==> final(self).levels@[i] == old(self).levels@[child as int]
                &&& s matches BlockSplit::ByKey(_, x, _, y) ==> x == n && y == n + 1
                &&& s matches BlockSplit::ByVersion(x) ==> x == n
                &&& (s is ByKey) == (node_active(old(self).blocks@[child as int].node_data)
                    >= (4 * Block::<FAN_OUT, NUM_RECORDS, P>::spec_max_units(old(self).blocks@[child as int].node_data is Leaf) + 4) / 5)
                &&& split_content(old(self).blocks@[child as int], fence, final(self).blocks@, s)
                &&& final(self).blocks@[mufasa as int].node_data matches Node::Index(np)
                &&& page_entries(np) == mark_obsolete_at(page_entries(page), child_index as int)
                    + replacement_entries(s, fence, w)
            }),
    {
        proof {
            self.lemma_evolves_refl(self.global_clock.0);
        }
        if self.global_clock.current_version() >= OBSOLETE_VERSION_MARK - 1 {
            return None;
        }
        let ghost old_self = *self;
        let n = self.blocks.len();
        proof {
            assert(old_self.block_ok(mufasa as int));
        }
        let (fence, child) = match &self.blocks[mufasa as usize].node_data {
            Node::Index(page) => (page.get_key(child_index), page.get_pointer(child_index)),
            Node::Leaf(_) => {
                proof {
                    assert(self.blocks@[mufasa as int] == old_self.blocks@[mufasa as int]);
                }
                return None;
            },
        };
        proof {
            assert(old_self.block_ok(mufasa as int));
        }
        let s = self.split(child, fence);
        let ghost mid = *self;
        let w = match self.start_tx_commit() {
            Some(w) => w,
            None => {
                return None;
            },
        };
        let ghost c1 = *self;
        let mut taken = Block { node_data: Node::<FAN_OUT, NUM_RECORDS, P>::new_internal() };
        std::mem::swap(&mut taken, &mut self.blocks[mufasa as usize]);
        let Block { node_data } = taken;
        let new_block = match node_data {
            Node::Index(mut page) => {
                let ghost before = page;
                let current_len = page.version_region.len();
                proof {
                    assert(mid.blocks@[mufasa as int] == old_self.blocks@[mufasa as int]);
                }
                match s {
                    BlockSplit::ByKey(lf, x, rf, y) => {
                        page.push_uncommitted(lf, w, x, current_len);
                        page.push_uncommitted(rf, w, y, current_len + 1);
                    },
                    BlockSplit::ByVersion(x) => {
                        page.push_uncommitted(fence, w, x, current_len);
                    },
                }
                page.mark_version_obsolete(child_index);
                proof {
                    assert(page_entries(page) =~= mark_obsolete_at(page_entries(before), child_index as int)
                        + replacement_entries(s, fence, w));
                }
                Block { node_data: Node::Index(page) }
            },
            Node::Leaf(l) => {
                proof {
                    assert(false);
                }
                Block { node_data: Node::Leaf(l) }
            },
        };
        self.blocks.set(mufasa as usize, new_block);
        proof {
            let fin = *self;
            assert forall|b: int| 0 <= b < fin.blocks@.len() implies fin.block_ok(b) by {
                if b == mufasa {
                    let np = fin.blocks@[b].node_data->Index_0;
                    let op = old_self.blocks@[b].node_data->Index_0;
                    assert forall|j: int| #![trigger np.pointer_region@[j]] 0 <= j < np.spec_len() implies {
                        &&& np.pointer_region@[j] < fin.blocks@.len()
                        &&& fin.levels@[np.pointer_region@[j] as int] + 1 == fin.levels@[b]
                    } by {
                        assert(page_entries(np)[j].2 == np.pointer_region@[j]);
                        if j < op.spec_len() {
                            assert(page_entries(op)[j].2 == op.pointer_region@[j]);
                            assert(mid.levels@[op.pointer_region@[j] as int] == old_self.levels@[op.pointer_region@[j] as int]);
                        }
                    }
                } else {
                    assert(mid.block_ok(b));
                }
            }
            let w0 = old_self.global_clock.0;
            old_self.lemma_evolves_by_append(mid, w0);
            assert(c1.blocks@.take(c1.blocks@.len() as int) =~= c1.blocks@);
            mid.lemma_evolves_by_append(c1, w0);
            let op = old_self.blocks@[mufasa as int].node_data->Index_0;
            lemma_same_up_to_marks_refl(page_entries(op));
            lemma_mark_same_up_to_marks(page_entries(op), page_entries(op), child_index as int);
            assert(c1.blocks@[mufasa as int] == old_self.blocks@[mufasa as int]);
            lemma_page_grows_reads_same(c1.blocks@[mufasa as int], fin.blocks@[mufasa as int],
                mark_obsolete_at(page_entries(op), child_index as int), replacement_entries(s, fence, w), w);
            c1.lemma_evolves_one_block(fin, mufasa as int, w);
            old_self.lemma_evolves_trans(mid, c1, w0, w0, w0);
            old_self.lemma_evolves_trans(c1, fin, w0, w, w0);
            if old_self.version_inv() {
                old_self.lemma_split_version_inv(mid, child as int, fence, s);
                assert(c1.version_inv());
                let np = fin.blocks@[mufasa as int].node_data->Index_0;
                let e = mark_obsolete_at(page_entries(op), child_index as int);
                let extra = replacement_entries(s, fence, w);
                lemma_replacement_covers(old_self.blocks@[child as int], fence, mid.blocks@, s, w);
                assert(page_inv(op, w)) by {
                    assert(old_self.blocks@[mufasa as int] == old_self.blocks@[mufasa as int]);
                }
                assert forall|i: int| 0 <= i < e.len() implies {
                    &&& (#[trigger] e[i]).0 == op.key_interval_region@[i]
                    &&& spec_plain(e[i].1) == spec_plain(op.version_region@[i])
                    &&& spec_obsolete(e[i].1) ==> spec_obsolete(op.version_region@[i]) || covers(extra, e[i].0)
                } by {
                    assert(page_entries(op)[i] == (op.key_interval_region@[i], op.version_region@[i], op.pointer_region@[i]));
                    if i == child_index {
                        crate::mv_query::time_matcher::lemma_mark_obsolete(op.version_region@[i]);
                    }
                }
                assert(entries_fresh(extra, (w + 1) as Version)) by {
                    assert(w < 0x8000_0000_0000_0000u64);
                }
                lemma_grown_page_inv(op, np, e, extra, w, (w + 1) as Version);
                c1.lemma_version_inv_one_block(fin, mufasa as int);
            }
        }
        Some((s, w))
    }

    /// Replaces root `root_block` (at `height`), which is full: the block is
    /// split over the whole key range; a key split gets a new index root above
    /// the halves, a version split makes the fresh copy the root. The new root
    /// is valid from the next commit version on. `None`, with nothing changed,
    /// when the clock, the height or the block count is exhausted.
    #[verifier::spinoff_prover]
    pub fn split_root(&mut self, root_block: BlockID, height: Height) -> (r: Option<BlockID>)
        requires
            old(self).wf(),
            root_block < old(self).blocks@.len(),
            old(self).levels@[root_block as int] == height,
        ensures
            final(self).gc_mode() == old(self).gc_mode(),
            final(self).wf(),
            r is None ==> *final(self) == *old(self),
            old(self).global_clock.0 < OBSOLETE_VERSION_MARK - 1
                && old(self).root.history()[old(self).root.head()].insert_version < old(self).global_clock.0
                && old(self).blocks@.len() < BLOCK_LIMIT && old(self).root.history().len() < usize::MAX - 1 && height < u16::MAX ==> r is Some,
            old(self).evolves_to(*final(self), old(self).global_clock.0),
            old(self).version_inv() ==> final(self).version_inv(),
            r matches Some(nb) ==> ({
                let n = old(self).blocks@.len();
                let w = old(self).global_clock.0;
                let fence = Interval { lower: old(self).min_key, upper: old(self).max_key };
                &&& final(self).global_clock.0 == w + 1
                &&& final(self).blocks@.take(n as int) == old(self).blocks@
                &&& final(self).levels@.take(n as int) == old(self).levels@
                &&& final(self).root.history().len() == old(self).root.history().len() + 1
                &&& final(self).root.history().take(old(self).root.history().len() as int) == old(self).root.history()
                &&& final(self).root.history().last().insert_version == w
                &&& final(self).root.history().last().payload.0 == nb
                &&& exists|s: BlockSplit| {
                    &&& split_content(old(self).blocks@[root_block as int], fence, final(self).blocks@, s)
                    &&& match s {
                        BlockSplit::ByKey(lf, x, rf, y) => {
                            &&& x == n && y == n + 1 && nb == n + 2
                            &&& final(self).blocks@.len() == n + 3
                            &&& final(self).root.history().last().payload.1 == height + 1
                            &&& final(self).blocks@[nb as int].node_data matches Node::Index(rp)
                            &&& page_entries(rp) == seq![(lf, w, x), (rf, w, y)]
                        },
                        BlockSplit::ByVersion(x) => {
                            &&& x == n && nb == n
                            &&& final(self).blocks@.len() == n + 1
                            &&& final(self).root.history().last().payload.1 == height
                        },
                    }
                }
            }),
    {
        proof {
            self.lemma_evolves_refl(self.global_clock.0);
        }
        let (_inner, head_version) = self.root.current_root();
        let w = self.global_clock.current_version();
        if w >= OBSOLETE_VERSION_MARK - 1 || head_version >= w || height >= Height::MAX
            || self.blocks.len() as u64 >= BLOCK_LIMIT || self.root.count_roots() >= usize::MAX - 1 {
            return None;
        }
        let ghost old_self = *self;
        let n = self.blocks.len();
        proof {
            assert(old_self.block_ok(root_block as int));
        }
        let fence = Interval::new(self.min_key, self.max_key);
        let s = self.split(root_block, fence);
        let ghost mid = *self;
        let w = match self.start_tx_commit() {
            Some(w) => w,
            None => {
                return None;
            },
        };
        let ghost c1 = *self;
        proof {
            let w0 = old_self.global_clock.0;
            old_self.lemma_evolves_by_append(mid, w0);
            assert(c1.blocks@.take(c1.blocks@.len() as int) =~= c1.blocks@);
            mid.lemma_evolves_by_append(c1, w0);
            old_self.lemma_evolves_trans(mid, c1, w0, w0, w0);
            if old_self.version_inv() {
                old_self.lemma_split_version_inv(mid, root_block as int, fence, s);
            }
        }
        match s {
            BlockSplit::ByKey(lf, x, rf, y) => {
                let mut page = InternalPage::<FAN_OUT>::new();
                page.push_uncommitted(lf, w, x, 0);
                page.push_uncommitted(rf, w, y, 1);
                let nb = Block { node_data: Node::<FAN_OUT, NUM_RECORDS, P>::Index(page) };
                proof {
                    assert(page_entries(page) =~= seq![(lf, w, x), (rf, w, y)]);
                    assert(self.fits(nb, (height + 1) as Height)) by {
                        assert forall|j: int| #![trigger page.pointer_region@[j]] 0 <= j < page.spec_len() implies {
                            &&& page.pointer_region@[j] < self.blocks@.len()
                            &&& self.levels@[page.pointer_region@[j] as int] + 1 == height + 1
                        } by {
                            assert(page_entries(page)[j].2 == page.pointer_region@[j]);
                            assert(self.levels@[x as int] == height);
                            assert(self.levels@[y as int] == height);
                        }
                    }
                }
                let r = self.append_block(nb, height + 1);
                let ghost c2 = *self;
                proof {
                    if old_self.version_inv() {
                        assert(entries_fresh(page_entries(page), self.global_clock.0)) by {
                            assert(w < 0x8000_0000_0000_0000u64);
                        }
                        crate::mv_tree::visibility::lemma_fresh_page_inv(page, self.global_clock.0);
                        assert(c2.blocks@.take(c1.blocks@.len() as int) =~= c1.blocks@);
                        c1.lemma_version_inv_append(c2);
                    }
                }
                self.push_root(r, height + 1, w);
                proof {
                    let w0 = old_self.global_clock.0;
                    assert(c2.blocks@.take(c1.blocks@.len() as int) =~= c1.blocks@);
                    c1.lemma_evolves_by_append(c2, w0);
                    old_self.lemma_evolves_trans(c1, c2, w0, w0, w0);
                    old_self.lemma_evolves_trans(c2, *self, w0, w, w0);
                    assert(self.blocks@.take(n as int) =~= old_self.blocks@);
                    assert(self.levels@.take(n as int) =~= old_self.levels@);
                    assert(self.blocks@[x as int] == mid.blocks@[x as int]);
                    assert(self.blocks@[y as int] == mid.blocks@[y as int]);
                    assert(split_content(old_self.blocks@[root_block as int], fence, self.blocks@, s));
                }
                Some(r)
            },
            BlockSplit::ByVersion(x) => {
                self.push_root(x, height, w);
                proof {
                    old_self.lemma_evolves_trans(c1, *self, old_self.global_clock.0, w, old_self.global_clock.0);
                    assert(split_content(old_self.blocks@[root_block as int], fence, self.blocks@, s));
                }
                Some(x)
            },
        }
    }

    /// Collapses root `root_block` (at `height`), an index block with a single
    /// live child: its newest child is split over the whole key range and what
    /// comes out becomes the root, as `split_root` does.
    #[verifier::spinoff_prover]
    pub fn merge_root(&mut self, root_block: BlockID, height: Height) -> (r: Option<BlockID>)
        requires
            old(self).wf(),
            root_block < old(self).blocks@.len(),
            old(self).levels@[root_block as int] == height,
            old(self).blocks@[root_block as int].node_data matches Node::Index(p) && p.spec_len() > 0,
        ensures
            final(self).gc_mode() == old(self).gc_mode(),
            final(self).wf(),
            r is None ==> *final(self) == *old(self),
            old(self).global_clock.0 < OBSOLETE_VERSION_MARK - 1
                && old(self).root.history()[old(self).root.head()].insert_version < old(self).global_clock.0
                && old(self).blocks@.len() < BLOCK_LIMIT && old(self).root.history().len() < usize::MAX - 1 ==> r is Some,
            old(self).evolves_to(*final(self), old(self).global_clock.0),
            old(self).version_inv() ==> final(self).version_inv(),
            r matches Some(nb) ==> ({
                let p = old(self).blocks@[root_block as int].node_data->Index_0;
                let child = p.pointer_region@[p.spec_len() - 1];
                let n = old(self).blocks@.len();
                let w = old(self).global_clock.0;
                &&& final(self).global_clock.0 == w + 1
                &&& final(self).blocks@.take(n as int) == old(self).blocks@
                &&& final(self).root.history().take(old(self).root.history().len() as int) == old(self).root.history()
                &&& final(self).root.history().len() == old(self).root.history().len() + 1
                &&& final(self).root.history().last().insert_version == w
                &&& final(self).root.history().last().payload.0 == nb
                &&& exists|s: BlockSplit| split_content(old(self).blocks@[child as int],
                    Interval { lower: old(self).min_key, upper: old(self).max_key }, final(self).blocks@, s)
            }),
    {
        proof {
            assert(self.block_ok(root_block as int));
        }
        let _n = self.blocks.len();
        let blk = &self.blocks[root_block as usize];
        proof {
            assert(self.blocks@[root_block as int] == *blk);
        }
        let child = match &blk.node_data {
            Node::Index(page) => page.last_child(page.version_region.len()),
            Node::Leaf(_) => {
                proof {
                    self.lemma_evolves_refl(self.global_clock.0);
                }
                return None;
            },
        };
        let child_height = height - 1;
        self.split_root(child, child_height)
    }

    /// The root a writer starts from: the newest root, reorganised first when
    /// it is full (split) or an index root with a single live child
    /// (collapsed). `None`, with nothing changed, when a reorganisation cannot
    /// take a commit version or a block.
    pub fn retrieve_root_write(&mut self) -> (r: Option<BlockID>)
        requires
            old(self).wf(),
        ensures
            final(self).gc_mode() == old(self).gc_mode(),
            final(self).wf(),
            final(self).global_clock.0 >= old(self).global_clock.0,
            r is None ==> *final(self) == *old(self),
            old(self).root_reorg_ok() ==> r is Some,
            old(self).evolves_to(*final(self), old(self).global_clock.0),
            old(self).version_inv() ==> final(self).version_inv(),
            r matches Some(b) ==> b < final(self).blocks@.len()
                && b == final(self).root.history()[final(self).root.head()].payload.0,
            root_degree(old(self).blocks@[old(self).head_root_block()]) == BlockUnsafeDegree::Safe ==> {
                &&& r == Some(old(self).head_root_block() as u64)
                &&& *final(self) == *old(self)
            },
    {
        let (inner, _v) = self.root.current_root();
        let block = inner.block();
        let height = inner.height();
        proof {
            assert(self.root.history()[self.root.head()] == self.root.history()[self.root.head()]);
            assert(self.block_ok(block as int));
        }
        let _n = self.blocks.len();
        let blk = &self.blocks[block as usize];
        proof {
            assert(self.blocks@[block as int] == *blk);
        }
        let d = blk.degree_root();
        match d {
            BlockUnsafeDegree::Overflow => self.split_root(block, height),
            BlockUnsafeDegree::ActiveUnderflow => {
                proof {
                    assert(self.blocks@[block as int].node_data is Index);
                    let p = self.blocks@[block as int].node_data->Index_0;
                    crate::mv_page_model::internal_page::lemma_count_active_bound(p.version_region@);
                }
                self.merge_root(block, height)
            },
            BlockUnsafeDegree::Safe => {
                proof {
                    self.lemma_evolves_refl(self.global_clock.0);
                }
                Some(block)
            },
        }
    }

    /// Reorganises the sparse child `simba_index` of index block `mufasa`
    /// together with its sibling (see `candidate_choice`): when their live
    /// entries fill at most 80 % of a block, one merged block (ordered by
    /// version) is added; otherwise two blocks splitting their joint content
    /// by key. The page of `mufasa` is not changed.
    #[verifier::spinoff_prover]
    pub fn merge(&mut self, mufasa: BlockID, simba_index: usize) -> (r: MergeResult)
        requires
            old(self).wf(),
            mufasa < old(self).blocks@.len(),
            old(self).blocks@.len() + 2 < u64::MAX,
            old(self).blocks@[mufasa as int].node_data matches Node::Index(page) && simba_index < page.spec_len(),
        ensures
            final(self).wf(),
            final(self).same_meta(*old(self)),
            final(self).blocks@.take(old(self).blocks@.len() as int) == old(self).blocks@,
            final(self).levels@.take(old(self).blocks@.len() as int) == old(self).levels@,
            ({
                let page = old(self).blocks@[mufasa as int].node_data->Index_0;
                let n = old(self).blocks@.len();
                let simba = page.pointer_region@[simba_index as int];
                let m = Block::<FAN_OUT, NUM_RECORDS, P>::spec_max_units(old(self).blocks@[simba as int].node_data is Leaf);
                match r {
                    MergeResult::Error => {
                        &&& candidate_choice(page, simba_index as int, None)
                        &&& *final(self) == *old(self)
                    },
                    MergeResult::Merged(c, cf, nb) => {
                        let cand = page.pointer_region@[c as int];
                        &&& candidate_choice(page, simba_index as int, Some(c as int))
                        &&& cf == page.key_interval_region@[c as int]
                        &&& nb == n
                        &&& final(self).blocks@.len() == n + 1
                        &&& final(self).levels@[nb as int] == old(self).levels@[simba as int]
                        &&& node_active(old(self).blocks@[cand as int].node_data) + node_active(old(self).blocks@[simba as int].node_data)
                            <= (4 * m + 4) / 5
                        &&& merge_content(old(self).blocks@[simba as int], old(self).blocks@[cand as int],
                            page.key_interval_region@[simba_index as int], cf, final(self).blocks@, r)
                    },
                    MergeResult::KeySplit(c, sp) => {
                        let cand = page.pointer_region@[c as int];
                        &&& candidate_choice(page, simba_index as int, Some(c as int))
                        &&& sp matches BlockSplit::ByKey(_, x, _, y) && x == n && y == n + 1
                        &&& final(self).blocks@.len() == n + 2
                        &&& final(self).levels@[n as int] == old(self).levels@[simba as int]
                        &&& final(self).levels@[n + 1int] == old(self).levels@[simba as int]
                        &&& node_active(old(self).blocks@[cand as int].node_data) + node_active(old(self).blocks@[simba as int].node_data)
                            > (4 * m + 4) / 5
                        &&& merge_content(old(self).blocks@[simba as int], old(self).blocks@[cand as int],
                            page.key_interval_region@[simba_index as int], page.key_interval_region@[c as int],
                            final(self).blocks@, r)
                    },
                }
            }),
    {
        broadcast use vstd::seq_lib::group_to_multiset_ensures;
        let ghost old_self = *self;
        let n = self.blocks.len();
        proof {
            assert(old_self.block_ok(mufasa as int));
        }
        let pblk = &self.blocks[mufasa as usize];
        proof {
            assert(self.blocks@[mufasa as int] == *pblk);
        }
        let (c, sf, cf, simba, cand) = match &pblk.node_data {
            Node::Index(page) => {
                match find_merge_candidate(page, simba_index) {
                    None => {
                        return MergeResult::Error;
                    },
                    Some(c) => (c, page.get_key(simba_index), page.get_key(c), page.get_pointer(simba_index), page.get_pointer(c)),
                }
            },
            Node::Leaf(_) => {
                return MergeResult::Error;
            },
        };
        let ghost page = old_self.blocks@[mufasa as int].node_data->Index_0;
        let level = self.levels[simba as usize];
        let sblk = &self.blocks[simba as usize];
        let cblk = &self.blocks[cand as usize];
        proof {
            assert(self.blocks@[simba as int] == *sblk);
            assert(self.blocks@[cand as int] == *cblk);
            assert(old_self.block_ok(simba as int));
            assert(old_self.block_ok(cand as int));
            assert(page.pointer_region@[c as int] == cand);
            assert(page.pointer_region@[simba_index as int] == simba);
            assert(old_self.levels@[cand as int] == old_self.levels@[simba as int]);
        }
        let is_leaf = sblk.is_leaf();
        let s_active = sblk.active_count();
        let c_active = cblk.active_count();
        let f80 = sblk.filling_80_percent(is_leaf);
        let lo = if cf.lower <= sf.lower { cf.lower } else { sf.lower };
        let hi = if cf.upper >= sf.upper { cf.upper } else { sf.upper };
        match (&sblk.node_data, &cblk.node_data) {
            (Node::Leaf(ls), Node::Leaf(lc)) => {
                let s_live = live_records(ls);
                let c_live = live_records(lc);
                proof {
                    lemma_live_of(ls.records());
                    lemma_live_of(lc.records());
                    crate::mv_page_model::record_history::lemma_count_live_bound(ls.records());
                    crate::mv_page_model::record_history::lemma_count_live_bound(lc.records());
                }
                if c_active + s_active <= f80 {
                    let combined = merge_records_by_version(&s_live, &c_live);
                    proof {
                        assert forall|i: int| 0 <= i < combined@.len() implies (#[trigger] combined@[i]).version.delete_version is None by {
                            assert(combined@.to_multiset().count(combined@[i]) > 0);
                            assert((s_live@ + c_live@).contains(combined@[i]));
                            let k = choose|k: int| 0 <= k < (s_live@ + c_live@).len() && (s_live@ + c_live@)[k] == combined@[i];
                            if k < s_live@.len() {
                                assert((s_live@ + c_live@)[k] == s_live@[k]);
                            } else {
                                assert((s_live@ + c_live@)[k] == c_live@[k - s_live@.len()]);
                            }
                        }
                    }
                    let nb = leaf_block_of::<FAN_OUT, NUM_RECORDS, P>(combined);
                    let x = self.append_block(nb, level);
                    proof {
                        assert(self.blocks@.take(n as int) =~= old_self.blocks@);
                        assert(self.levels@.take(n as int) =~= old_self.levels@);
                    }
                    MergeResult::Merged(c, cf, x)
                } else {
                    let mut joined = c_live;
                    let mut tail = s_live;
                    let ghost cl = joined@;
                    let ghost sl = tail@;
                    joined.append(&mut tail);
                    proof {
                        assert(joined@ =~= cl + sl);
                        assert(joined@.len() > 0);
                    }
                    let (s0, lr, rr) = key_split_records(&joined);
                    proof {
                        vstd::seq_lib::lemma_multiset_commutative(lr@, rr@);
                        vstd::seq_lib::to_multiset_len(lr@ + rr@);
                        vstd::seq_lib::to_multiset_len(joined@);
                        assert forall|i: int| 0 <= i < lr@.len() implies (#[trigger] lr@[i]).version.delete_version is None by {
                            assert((lr@ + rr@)[i] == lr@[i]);
                            assert((lr@ + rr@).to_multiset().count(lr@[i]) > 0);
                            assert(joined@.contains(lr@[i]));
                            let k = choose|k: int| 0 <= k < joined@.len() && joined@[k] == lr@[i];
                            if k < cl.len() {
                                assert(joined@[k] == cl[k]);
                            } else {
                                assert(joined@[k] == sl[k - cl.len()]);
                            }
                        }
                        assert forall|i: int| 0 <= i < rr@.len() implies (#[trigger] rr@[i]).version.delete_version is None by {
                            assert((lr@ + rr@)[lr@.len() + i] == rr@[i]);
                            assert((lr@ + rr@).to_multiset().count(rr@[i]) > 0);
                            assert(joined@.contains(rr@[i]));
                            let k = choose|k: int| 0 <= k < joined@.len() && joined@[k] == rr@[i];
                            if k < cl.len() {
                                assert(joined@[k] == cl[k]);
                            } else {
                                assert(joined@[k] == sl[k - cl.len()]);
                            }
                        }
                    }
                    let lf = Interval::new(lo, dec_key(s0));
                    let rf = Interval::new(s0, hi);
                    let left = leaf_block_of::<FAN_OUT, NUM_RECORDS, P>(lr);
                    let right = leaf_block_of::<FAN_OUT, NUM_RECORDS, P>(rr);
                    let x = self.append_block(left, level);
                    let y = self.append_block(right, level);
                    proof {
                        assert(self.blocks@.take(n as int) =~= old_self.blocks@);
                        assert(self.levels@.take(n as int) =~= old_self.levels@);
                    }
                    MergeResult::KeySplit(c, BlockSplit::ByKey(lf, x, rf, y))
                }
            },
            (Node::Index(ps), Node::Index(pc)) => {
                let s_act = active_entries(ps);
                let c_act = active_entries(pc);
                let ghost gps = *ps;
                let ghost gpc = *pc;
                proof {
                    lemma_active_of(*ps, ps.spec_len());
                    lemma_active_of(*pc, pc.spec_len());
                    assert(ps.version_region@.take(ps.spec_len()) =~= ps.version_region@);
                    assert(pc.version_region@.take(pc.spec_len()) =~= pc.version_region@);
                    crate::mv_page_model::internal_page::lemma_count_active_bound(ps.version_region@);
                    crate::mv_page_model::internal_page::lemma_count_active_bound(pc.version_region@);
                    assert forall|i: int| #![trigger s_act@[i].2] 0 <= i < s_act@.len() implies {
                        &&& s_act@[i].2 < old_self.blocks@.len()
                        &&& old_self.levels@[s_act@[i].2 as int] + 1 == level
                    } by {
                        let k = choose|k: int| 0 <= k < gps.spec_len() && s_act@[i] == (
                            gps.key_interval_region@[k], gps.version_region@[k], gps.pointer_region@[k]);
                        assert(gps.pointer_region@[k] == s_act@[i].2);
                    }
                    assert forall|i: int| #![trigger c_act@[i].2] 0 <= i < c_act@.len() implies {
                        &&& c_act@[i].2 < old_self.blocks@.len()
                        &&& old_self.levels@[c_act@[i].2 as int] + 1 == level
                    } by {
                        let k = choose|k: int| 0 <= k < gpc.spec_len() && c_act@[i] == (
                            gpc.key_interval_region@[k], gpc.version_region@[k], gpc.pointer_region@[k]);
                        assert(gpc.pointer_region@[k] == c_act@[i].2);
                    }
                }
                if c_active + s_active <= f80 {
                    let combined = merge_entries_by_version(&s_act, &c_act);
                    let ghost cm = combined@;
                    proof {
                        assert forall|i: int| #![trigger cm[i].2] 0 <= i < cm.len() implies {
                            &&& cm[i].2 < old_self.blocks@.len()
                            &&& old_self.levels@[cm[i].2 as int] + 1 == level
                        } by {
                            assert(cm.to_multiset().count(cm[i]) > 0);
                            assert((s_act@ + c_act@).contains(cm[i]));
                            let k = choose|k: int| 0 <= k < (s_act@ + c_act@).len() && (s_act@ + c_act@)[k] == cm[i];
                            if k < s_act@.len() {
                                assert((s_act@ + c_act@)[k] == s_act@[k]);
                            } else {
                                assert((s_act@ + c_act@)[k] == c_act@[k - s_act@.len()]);
                            }
                        }
                    }
                    let nb = index_block_of::<FAN_OUT, NUM_RECORDS, P>(combined);
                    proof {
                        assert(old_self.fits(nb, level)) by {
                            let np = nb.node_data->Index_0;
                            assert forall|j: int| #![trigger np.pointer_region@[j]] 0 <= j < np.spec_len() implies {
                                &&& np.pointer_region@[j] < old_self.blocks@.len()
                                &&& old_self.levels@[np.pointer_region@[j] as int] + 1 == level
                            } by {
                                assert(page_entries(np)[j] == cm[j]);
                                assert(cm[j].2 == np.pointer_region@[j]);
                            }
                        }
                    }
                    let x = self.append_block(nb, level);
                    proof {
                        assert(self.blocks@.take(n as int) =~= old_self.blocks@);
                        assert(self.levels@.take(n as int) =~= old_self.levels@);
                    }
                    MergeResult::Merged(c, cf, x)
                } else {
                    let mut joined = s_act;
                    let mut tail = c_act;
                    let ghost sa = joined@;
                    let ghost ca = tail@;
                    joined.append(&mut tail);
                    proof {
                        assert(joined@ =~= sa + ca);
                        assert(joined@.len() > 0);
                    }
                    let (s0, le, re) = key_split_entries(&joined);
                    proof {
                        vstd::seq_lib::lemma_multiset_commutative(le@, re@);
                        vstd::seq_lib::to_multiset_len(le@ + re@);
                        vstd::seq_lib::to_multiset_len(joined@);
                        assert forall|i: int| #![trigger le@[i].2] 0 <= i < le@.len() implies {
                            &&& le@[i].2 < old_self.blocks@.len()
                            &&& old_self.levels@[le@[i].2 as int] + 1 == level
                        } by {
                            assert((le@ + re@)[i] == le@[i]);
                            assert((le@ + re@).to_multiset().count(le@[i]) > 0);
                            assert(joined@.contains(le@[i]));
                            let k = choose|k: int| 0 <= k < joined@.len() && joined@[k] == le@[i];
                            if k < sa.len() {
                                assert(joined@[k] == sa[k]);
                            } else {
                                assert(joined@[k] == ca[k - sa.len()]);
                            }
                        }
                        assert forall|i: int| #![trigger re@[i].2] 0 <= i < re@.len() implies {
                            &&& re@[i].2 < old_self.blocks@.len()
                            &&& old_self.levels@[re@[i].2 as int] + 1 == level
                        } by {
                            assert((le@ + re@)[le@.len() + i] == re@[i]);
                            assert((le@ + re@).to_multiset().count(re@[i]) > 0);
                            assert(joined@.contains(re@[i]));
                            let k = choose|k: int| 0 <= k < joined@.len() && joined@[k] == re@[i];
                            if k < sa.len() {
                                assert(joined@[k] == sa[k]);
                            } else {
                                assert(joined@[k] == ca[k - sa.len()]);
                            }
                        }
                    }
                    let lf = Interval::new(lo, dec_key(s0));
                    let rf = Interval::new(s0, hi);
                    let left = index_block_of::<FAN_OUT, NUM_RECORDS, P>(le);
                    let right = index_block_of::<FAN_OUT, NUM_RECORDS, P>(re);
                    proof {
                        assert(old_self.fits(left, level)) by {
                            let lp = left.node_data->Index_0;
                            assert forall|j: int| #![trigger lp.pointer_region@[j]] 0 <= j < lp.spec_len() implies {
                                &&& lp.pointer_region@[j] < old_self.blocks@.len()
                                &&& old_self.levels@[lp.pointer_region@[j] as int] + 1 == level
                            } by {
                                assert(page_entries(lp)[j] == le@[j]);
                                assert(le@[j].2 == lp.pointer_region@[j]);
                            }
                        }
                    }
                    let x = self.append_block(left, level);
                    proof {
                        assert(self.fits(right, level)) by {
                            let rp = right.node_data->Index_0;
                            assert forall|j: int| #![trigger rp.pointer_region@[j]] 0 <= j < rp.spec_len() implies {
                                &&& rp.pointer_region@[j] < self.blocks@.len()
                                &&& self.levels@[rp.pointer_region@[j] as int] + 1 == level
                            } by {
                                assert(page_entries(rp)[j] == re@[j]);
                                assert(re@[j].2 == rp.pointer_region@[j]);
                                assert(self.levels@[re@[j].2 as int] == old_self.levels@[re@[j].2 as int]);
                            }
                        }
                    }
                    let y = self.append_block(right, level);
                    proof {
                        assert(self.blocks@.take(n as int) =~= old_self.blocks@);
                        assert(self.levels@.take(n as int) =~= old_self.levels@);
                    }
                    MergeResult::KeySplit(c, BlockSplit::ByKey(lf, x, rf, y))
                }
            },
            _ => {
                proof {
                    assert(false);
                }
                MergeResult::Error
            },
        }
    }

    /// Reorganises the sparse child `index_simba` of index block `mufasa` with
    /// a sibling (see `merge`): the page gains the entries of the new blocks at
    /// the next commit version, and the entries of both children are marked
    /// obsolete. `None`, with nothing changed, when there is no sibling or the
    /// clock is exhausted.
    #[verifier::spinoff_prover]
    #[verifier::rlimit(40)]
    pub fn on_underflow_node(&mut self, mufasa: BlockID, index_simba: usize) -> (r: Option<(MergeResult, Version)>)
        requires
            old(self).wf(),
            mufasa < old(self).blocks@.len(),
            old(self).blocks@.len() + 2 < u64::MAX,
            old(self).blocks@[mufasa as int].node_data matches Node::Index(page)
                && index_simba < page.spec_len() && page.spec_len() + 2 <= FAN_OUT,
        ensures
            final(self).gc_mode() == old(self).gc_mode(),
            final(self).min_key == old(self).min_key,
            final(self).max_key == old(self).max_key,
            final(self).wf(),
            r is None ==> *final(self) == *old(self),
            old(self).global_clock.0 < OBSOLETE_VERSION_MARK - 1 && (exists|c: int|
                is_candidate(old(self).blocks@[mufasa as int].node_data->Index_0, index_simba as int, c)) ==> r is Some,
            old(self).evolves_to(*final(self), old(self).global_clock.0),
            old(self).version_inv() ==> final(self).version_inv(),
            r matches Some((m, w)) ==> ({
                let page = old(self).blocks@[mufasa as int].node_data->Index_0;
                let n = old(self).blocks@.len();
                let sf = page.key_interval_region@[index_simba as int];
                let c: int = match m {
                    MergeResult::Merged(c, _, _) => c as int,
                    MergeResult::KeySplit(c, _) => c as int,
                    MergeResult::Error => -1,
                };
                &&& !(m is Error)
                &&& candidate_choice(page, index_simba as int, Some(c))
                &&& w == old(self).global_clock.0
                &&& final(self).global_clock.0 == w + 1
                &&& w < OBSOLETE_VERSION_MARK - 1
                &&& final(self).root == old(self).root
                &&& final(self).blocks@.len() == n + if m is KeySplit { 2int } else { 1int }
                &&& forall|b: int| 0 <= b < n && b != mufasa ==> final(self).blocks@[b] == old(self).blocks@[b]
                &&& final(self).levels@.take(n as int) == old(self).levels@
                &&& merge_content(
                    old(self).blocks@[page.pointer_region@[index_simba as int] as int],
                    old(self).blocks@[page.pointer_region@[c] as int],
                    sf,
                    page.key_interval_region@[c],
                    final(self).blocks@,
                    m,
                )
                &&& final(self).blocks@[mufasa as int].node_data matches Node::Index(np)
                &&& page_entries(np) == mark_obsolete_at(mark_obsolete_at(page_entries(page), c), index_simba as int)
                    + merge_entries(m, sf, w)
                &&& old(self).block_manager.records_dead_col(
                    final(self).block_manager,
                    (np.version_region@[index_simba as int], np.pointer_region@[index_simba as int]),
                    (np.version_region@[c], np.pointer_region@[c]),
                )
            }),
    {
        proof {
            self.lemma_evolves_refl(self.global_clock.0);
        }
        if self.global_clock.current_version() >= OBSOLETE_VERSION_MARK - 1 {
            return None;
        }
        let ghost old_self = *self;
        proof {
            assert(old_self.block_ok(mufasa as int));
        }
        let _n = self.blocks.len();
        let sf = match &self.blocks[mufasa as usize].node_data {
            Node::Index(page) => page.get_key(index_simba),
            Node::Leaf(_) => {
                return None;
            },
        };
        let m = self.merge(mufasa, index_simba);
        let ghost mid = *self;
        let c = match m {
            MergeResult::Merged(c, _, _) => c,
            MergeResult::KeySplit(c, _) => c,
            MergeResult::Error => {
                return None;
            },
        };
        let w = match self.start_tx_commit() {
            Some(w) => w,
            None => {
                return None;
            },
        };
        let ghost c1 = *self;
        let mut taken = Block { node_data: Node::<FAN_OUT, NUM_RECORDS, P>::new_internal() };
        std::mem::swap(&mut taken, &mut self.blocks[mufasa as usize]);
        let Block { node_data } = taken;
        let (new_block, dead) = match node_data {
            Node::Index(mut page) => {
                let ghost before = page;
                let current_len = page.version_region.len();
                proof {
                    assert(mid.blocks@[mufasa as int] == old_self.blocks@[mufasa as int]);
                }
                match m {
                    MergeResult::Merged(_, cf, nb) => {
                        let mut merged_fence = sf;
                        merged_fence.merged(&cf);
                        page.push_uncommitted(merged_fence, w, nb, current_len);
                    },
                    MergeResult::KeySplit(_, BlockSplit::ByKey(lf, x, rf, y)) => {
                        page.push_uncommitted(lf, w, x, current_len);
                        page.push_uncommitted(rf, w, y, current_len + 1);
                    },
                    _ => {},
                }
                page.mark_version_obsolete(c);
                page.mark_version_obsolete(index_simba);
                proof {
                    assert(page_entries(page) =~= mark_obsolete_at(mark_obsolete_at(page_entries(before), c as int), index_simba as int)
                        + merge_entries(m, sf, w));
                }
                let dead = [
                    (page.get_version(index_simba), page.get_pointer(index_simba)),
                    (page.get_version(c), page.get_pointer(c)),
                ];
                (Block { node_data: Node::Index(page) }, dead)
            },
            Node::Leaf(l) => {
                proof {
                    assert(false);
                }
                (Block { node_data: Node::Leaf(l) }, [(0, 0), (0, 0)])
            },
        };
        self.block_manager.register_dead_col(dead);
        self.blocks.set(mufasa as usize, new_block);
        proof {
            let fin = *self;
            let simba = old_self.blocks@[mufasa as int].node_data->Index_0.pointer_region@[index_simba as int];
            assert forall|b: int| 0 <= b < fin.blocks@.len() implies fin.block_ok(b) by {
                if b == mufasa {
                    let np = fin.blocks@[b].node_data->Index_0;
                    let op = old_self.blocks@[b].node_data->Index_0;
                    assert(old_self.levels@[simba as int] + 1 == old_self.levels@[b]);
                    assert forall|j: int| #![trigger np.pointer_region@[j]] 0 <= j < np.spec_len() implies {
                        &&& np.pointer_region@[j] < fin.blocks@.len()
                        &&& fin.levels@[np.pointer_region@[j] as int] + 1 == fin.levels@[b]
                    } by {
                        assert(page_entries(np)[j].2 == np.pointer_region@[j]);
                        if j < op.spec_len() {
                            assert(page_entries(op)[j].2 == op.pointer_region@[j]);
                            assert(mid.levels@[op.pointer_region@[j] as int] == old_self.levels@[op.pointer_region@[j] as int]);
                        }
                    }
                } else {
                    assert(mid.block_ok(b));
                }
            }
            let w0 = old_self.global_clock.0;
            old_self.lemma_evolves_by_append(mid, w0);
            assert(c1.blocks@.take(c1.blocks@.len() as int) =~= c1.blocks@);
            mid.lemma_evolves_by_append(c1, w0);
            let op = old_self.blocks@[mufasa as int].node_data->Index_0;
            let e0 = page_entries(op);
            lemma_same_up_to_marks_refl(e0);
            lemma_mark_same_up_to_marks(e0, e0, c as int);
            lemma_mark_same_up_to_marks(mark_obsolete_at(e0, c as int), e0, index_simba as int);
            assert(c1.blocks@[mufasa as int] == old_self.blocks@[mufasa as int]);
            lemma_page_grows_reads_same(c1.blocks@[mufasa as int], fin.blocks@[mufasa as int],
                mark_obsolete_at(mark_obsolete_at(e0, c as int), index_simba as int), merge_entries(m, sf, w), w);
            c1.lemma_evolves_one_block(fin, mufasa as int, w);
            old_self.lemma_evolves_trans(mid, c1, w0, w0, w0);
            old_self.lemma_evolves_trans(c1, fin, w0, w, w0);
            if old_self.version_inv() {
                let simba = op.pointer_region@[index_simba as int];
                let cand = op.pointer_region@[c as int];
                let cf = op.key_interval_region@[c as int];
                old_self.lemma_merge_version_inv(mid, simba as int, cand as int, sf, cf, m);
                assert(c1.version_inv());
                let np = fin.blocks@[mufasa as int].node_data->Index_0;
                let e = mark_obsolete_at(mark_obsolete_at(e0, c as int), index_simba as int);
                let extra = merge_entries(m, sf, w);
                lemma_merge_covers(old_self.blocks@[simba as int], old_self.blocks@[cand as int], sf, cf, mid.blocks@, m, w);
                assert(page_inv(op, w)) by {
                    assert(old_self.blocks@[mufasa as int] == old_self.blocks@[mufasa as int]);
                }
                assert forall|i: int| 0 <= i < e.len() implies {
                    &&& (#[trigger] e[i]).0 == op.key_interval_region@[i]
                    &&& spec_plain(e[i].1) == spec_plain(op.version_region@[i])
                    &&& spec_obsolete(e[i].1) ==> spec_obsolete(op.version_region@[i]) || covers(extra, e[i].0)
                } by {
                    assert(e0[i] == (op.key_interval_region@[i], op.version_region@[i], op.pointer_region@[i]));
                    crate::mv_query::time_matcher::lemma_mark_obsolete(op.version_region@[i]);
                    crate::mv_query::time_matcher::lemma_mark_obsolete(op.version_region@[i] | 0x8000_0000_0000_0000u64);
                }
                assert(entries_fresh(extra, (w + 1) as Version)) by {
                    assert(w < 0x8000_0000_0000_0000u64);
                }
                lemma_grown_page_inv(op, np, e, extra, w, (w + 1) as Version);
                c1.lemma_version_inv_one_block(fin, mufasa as int);
            }
        }
        Some((m, w))
    }

    /// Adds root `block` at `height`, valid from version `w` on.
    fn push_root(&mut self, block: BlockID, height: Height, w: Version)
        requires
            old(self).wf(),
            block < old(self).blocks@.len(),
            old(self).levels@[block as int] == height,
            old(self).root.history()[old(self).root.head()].insert_version < w,
            old(self).root.history().len() < usize::MAX - 1,
            w < old(self).global_clock.0,
        ensures
            old(self).version_inv() ==> final(self).version_inv(),
            final(self).wf(),
            final(self).block_manager == old(self).block_manager,
            final(self).blocks == old(self).blocks,
            final(self).levels == old(self).levels,
            final(self).global_clock == old(self).global_clock,
            final(self).root.history().len() == old(self).root.history().len() + 1,
            final(self).root.history().take(old(self).root.history().len() as int) == old(self).root.history(),
            final(self).root.history().last().payload == ValueRootInner(block, height),
            final(self).root.history().last().insert_version == w,
            old(self).evolves_to(*final(self), w),
    {
        let ghost old_self = *self;
        self.root.append_root(ValueRootInner::from(block, height), w);
        proof {
            Self::lemma_blocks_ok_same(old_self, *self);
            assert forall|b: int| 0 <= b < old_self.blocks@.len() implies crate::mv_tree::snapshot::block_reads_same(
                #[trigger] old_self.blocks@[b], self.blocks@[b], w) by {
                crate::mv_tree::snapshot::lemma_reads_same_refl(old_self.blocks@[b], w);
            }
            if old_self.version_inv() {
                assert forall|i: int| 0 <= i < self.root.history().len() implies (#[trigger] self.root.history()[i]).insert_version <= self.global_clock.0 by {
                    if i < old_self.root.history().len() {
                        assert(self.root.history().take(old_self.root.history().len() as int)[i] == self.root.history()[i]);
                        assert(old_self.root.history()[i] == self.root.history()[i]);
                    }
                }
                assert forall|b: int| #![trigger self.blocks@[b]] 0 <= b < self.blocks@.len() implies (self.blocks@[b].node_data matches Node::Index(p)
                    ==> page_inv(p, self.global_clock.0)) by {
                    assert(old_self.blocks@[b] == self.blocks@[b]);
                }
            }
            let nodes = self.root.history();
            let on = old_self.root.history();
            assert forall|i: int| 0 <= i < on.len() implies nodes[i] == on[i] by {
                assert(nodes.take(on.len() as int)[i] == nodes[i]);
            }
            assert forall|i: int, j: int| 0 <= i < j < nodes.len() implies nodes[i].insert_version < nodes[j].insert_version by {
                if j < on.len() {
                } else {
                    if i < on.len() - 1 {
                        assert(on[i].insert_version < on[on.len() - 1].insert_version);
                    }
                }
            }
            assert forall|i: int| #![trigger self.root.history()[i]] 0 <= i < nodes.len() implies {
                let rt = self.root.history()[i].payload;
                &&& rt.0 < self.blocks@.len()
                &&& self.levels@[rt.0 as int] == rt.1
            } by {
                if i < on.len() {
                    assert(old_self.root.history()[i] == nodes[i]);
                }
            }
        }
    }
}

} // verus!
