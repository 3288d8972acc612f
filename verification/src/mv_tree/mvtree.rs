use vstd::prelude::*;
use crate::mv_block::block::{geometry_ok, node_active, node_len, Block};
use crate::mv_block::block_handle::BlockAllocManager;
use crate::mv_gc::tracker_handle::TrackerHandleSt;
use crate::mv_crud_model::crud_operation::CRUDOperation;
use crate::mv_crud_model::crud_operation_result::{CRUDOperationInnerReason, CRUDOperationResult};
use crate::mv_page_model::internal_page::InternalPage;
use crate::mv_page_model::leaf_page::{is_hit, LeafPage, RecordPointIter};
use crate::mv_page_model::node::Node;
use crate::mv_page_model::record_history::{lookup, visible_index, lemma_visible_index};
use crate::mv_page_model::{BlockID, Height};
use crate::mv_query::time_matcher::{spec_obsolete, spec_plain, TimeMatcher};
use crate::mv_record_model::record_point::{Key, RecordPoint, RecordPointResult};
use crate::mv_record_model::version_info::Version;
use crate::mv_root::frugal_root::{newest_at_most, AtomicFrugalList};
use crate::mv_root::index_root::{RootIndex, RootIndexType};
use crate::mv_root::tree_root::ValueRootInner;
use crate::mv_sync::clock::GlobalClock;
use crate::mv_sync::locking_strategy::LockingStrategy;
use crate::mv_sync::version_handle::START_VERSION;
use crate::mv_tree::root::{Root, INIT_TREE_HEIGHT};
use crate::mv_utils::interval::Interval;
use crate::mv_tree::visibility::write_route;

verus! {

/// A multi-version B+-tree run by a single writer. Blocks live in an arena and
/// are referred to by their position; `levels` records the level of each
/// block (1 for a leaf). The history of roots maps versions to root blocks.
pub struct MVTreeSt<const FAN_OUT: usize, const NUM_RECORDS: usize, P> {
    pub blocks: Vec<Block<FAN_OUT, NUM_RECORDS, P>>,
    pub levels: Vec<Height>,
    pub root: RootIndex,
    pub global_clock: GlobalClock,
    pub block_manager: BlockAllocManager<FAN_OUT, NUM_RECORDS>,
    pub locking_strategy: LockingStrategy,
    pub min_key: Key,
    pub max_key: Key,
}

/// Whether `key` occurs in `seen`.
fn contains_key(seen: &Vec<Key>, key: Key) -> (r: bool)
    ensures
        r == seen@.contains(key),
{
    let mut i: usize = 0;
    while i < seen.len()
        invariant
            i <= seen@.len(),
            forall|j: int| 0 <= j < i ==> seen@[j] != key,
        decreases seen@.len() - i,
    {
        if seen[i] == key {
            return true;
        }
        i = i + 1;
    }
    false
}

/// True when index entry `j` of `page` routes `key` for snapshot `v`.
pub open spec fn entry_routes<const FAN_OUT: usize>(page: InternalPage<FAN_OUT>, j: int, key: Key, v: Version) -> bool {
    &&& 0 <= j < page.spec_len()
    &&& spec_plain(page.version_region@[j]) <= v
    &&& page.key_interval_region@[j].spec_contains(key)
}

/// The entry a reader of snapshot `v` follows for `key`: the last one valid at
/// `v` whose fence holds `key`.
pub open spec fn read_entry<const FAN_OUT: usize>(page: InternalPage<FAN_OUT>, key: Key, v: Version, upto: int) -> Option<int>
    decreases upto,
{
    if upto <= 0 {
        None
    } else if entry_routes(page, upto - 1, key, v) {
        Some(upto - 1)
    } else {
        read_entry(page, key, v, upto - 1)
    }
}

/// True when index entry `j` of `page` is active and its fence holds `key`.
pub open spec fn entry_writes<const FAN_OUT: usize>(page: InternalPage<FAN_OUT>, j: int, key: Key) -> bool {
    &&& 0 <= j < page.spec_len()
    &&& !spec_obsolete(page.version_region@[j])
    &&& page.key_interval_region@[j].spec_contains(key)
}

/// The entry a writer follows for `key`: the last active one whose fence holds `key`.
pub open spec fn write_entry<const FAN_OUT: usize>(page: InternalPage<FAN_OUT>, key: Key, upto: int) -> Option<int>
    decreases upto,
{
    if upto <= 0 {
        None
    } else if entry_writes(page, upto - 1, key) {
        Some(upto - 1)
    } else {
        write_entry(page, key, upto - 1)
    }
}

pub proof fn lemma_read_entry<const FAN_OUT: usize>(page: InternalPage<FAN_OUT>, key: Key, v: Version, upto: int)
    requires
        upto <= page.spec_len(),
    ensures
        match read_entry(page, key, v, upto) {
            None => forall|j: int| 0 <= j < upto ==> !entry_routes(page, j, key, v),
            Some(i) => 0 <= i < upto && entry_routes(page, i, key, v)
                && forall|j: int| i < j < upto ==> !entry_routes(page, j, key, v),
        },
    decreases upto,
{
    if upto > 0 && !entry_routes(page, upto - 1, key, v) {
        lemma_read_entry(page, key, v, upto - 1);
    }
}

pub proof fn lemma_write_entry<const FAN_OUT: usize>(page: InternalPage<FAN_OUT>, key: Key, upto: int)
    requires
        upto <= page.spec_len(),
    ensures
        match write_entry(page, key, upto) {
            None => forall|j: int| 0 <= j < upto ==> !entry_writes(page, j, key),
            Some(i) => 0 <= i < upto && entry_writes(page, i, key)
                && forall|j: int| i < j < upto ==> !entry_writes(page, j, key),
        },
    decreases upto,
{
    if upto > 0 && !entry_writes(page, upto - 1, key) {
        lemma_write_entry(page, key, upto - 1);
    }
}

/// The leaf a reader of snapshot `v` reaches for `key` from block `b`, walking
/// down at most `fuel` index levels; `None` when an index page has no entry
/// for it.
pub open spec fn read_route<const FAN_OUT: usize, const NUM_RECORDS: usize, P>(
    blocks: Seq<Block<FAN_OUT, NUM_RECORDS, P>>,
    b: int,
    key: Key,
    v: Version,
    fuel: nat,
) -> Option<int>
    decreases fuel,
{
    if !(0 <= b < blocks.len()) {
        None
    } else {
        match blocks[b].node_data {
            Node::Leaf(_) => Some(b),
            Node::Index(page) => if fuel == 0 {
                None
            } else {
                match read_entry(page, key, v, page.spec_len()) {
                    None => None,
                    Some(j) => read_route(blocks, page.pointer_region@[j] as int, key, v, (fuel - 1) as nat),
                }
            },
        }
    }
}

/// Whether a range reader of snapshot `v` may take index entry `j` of `page`:
/// the entry is valid at `v` and its fence overlaps `range`.
pub open spec fn entry_in_range<const FAN_OUT: usize>(page: InternalPage<FAN_OUT>, j: int, range: Interval, v: Version) -> bool {
    &&& spec_plain(page.version_region@[j]) <= v
    &&& range.spec_overlap(page.key_interval_region@[j])
}

/// The children a range reader takes from `page`, scanning entries `j - 1`
/// down to 0 while `lower` and `upper` hold the fence bounds already taken on
/// the page: an entry is taken when its lower bound is new, and then its upper
/// bound is new too.
pub open spec fn range_children<const FAN_OUT: usize>(
    page: InternalPage<FAN_OUT>,
    range: Interval,
    v: Version,
    j: int,
    lower: Seq<Key>,
    upper: Seq<Key>,
) -> Seq<BlockID>
    decreases j,
{
    if j <= 0 {
        Seq::empty()
    } else {
        let fence = page.key_interval_region@[j - 1];
        if entry_in_range(page, j - 1, range, v) && !lower.contains(fence.lower) {
            if !upper.contains(fence.upper) {
                seq![page.pointer_region@[j - 1]] + range_children(
                    page, range, v, j - 1, lower.push(fence.lower), upper.push(fence.upper))
            } else {
                range_children(page, range, v, j - 1, lower.push(fence.lower), upper)
            }
        } else {
            range_children(page, range, v, j - 1, lower, upper)
        }
    }
}

/// Entry `j` is valid at `v`, overlaps `range`, and no newer such entry of
/// the page has the same lower fence bound.
pub open spec fn first_lower<const FAN_OUT: usize>(page: InternalPage<FAN_OUT>, range: Interval, v: Version, j: int) -> bool {
    &&& 0 <= j < page.spec_len()
    &&& entry_in_range(page, j, range, v)
    &&& forall|j2: int|
        j < j2 < page.spec_len() && entry_in_range(page, j2, range, v) ==> #[trigger] page.key_interval_region@[j2].lower
            != page.key_interval_region@[j].lower
}

/// A range reader of snapshot `v` descends through entry `j`: it is the
/// newest valid entry overlapping `range` with its lower fence bound, and no
/// newer such entry has its upper fence bound.
pub open spec fn range_takes<const FAN_OUT: usize>(page: InternalPage<FAN_OUT>, range: Interval, v: Version, j: int) -> bool {
    &&& first_lower(page, range, v, j)
    &&& forall|j2: int|
        j < j2 < page.spec_len() && first_lower(page, range, v, j2) ==> #[trigger] page.key_interval_region@[j2].upper
            != page.key_interval_region@[j].upper
}

/// `kids` are the children of the entries `ix` of `page` below `j`, newest
/// first, and `ix` are exactly the entries below `j` a range reader
/// descends through.
pub open spec fn takes_exactly<const FAN_OUT: usize>(
    page: InternalPage<FAN_OUT>,
    range: Interval,
    v: Version,
    j: int,
    kids: Seq<BlockID>,
    ix: Seq<int>,
) -> bool {
    &&& ix.len() == kids.len()
    &&& forall|i: int| 0 <= i < ix.len() ==> 0 <= #[trigger] ix[i] < j && range_takes(page, range, v, ix[i])
        && kids[i] == page.pointer_region@[ix[i]]
    &&& forall|i1: int, i2: int| 0 <= i1 < i2 < ix.len() ==> #[trigger] ix[i1] > #[trigger] ix[i2]
    &&& forall|e: int| 0 <= e < j && range_takes(page, range, v, e) ==> exists|i: int| 0 <= i < ix.len() && #[trigger] ix[i] == e
}

proof fn lemma_range_children_takes<const FAN_OUT: usize>(
    page: InternalPage<FAN_OUT>,
    range: Interval,
    v: Version,
    j: int,
    lower: Seq<Key>,
    upper: Seq<Key>,
) -> (ix: Seq<int>)
    requires
        0 <= j <= page.spec_len(),
        forall|x: Key| #[trigger] lower.contains(x) <==> exists|j2: int| j <= j2 < page.spec_len() && entry_in_range(page, j2, range, v)
            && #[trigger] page.key_interval_region@[j2].lower == x,
        forall|x: Key| #[trigger] upper.contains(x) <==> exists|j2: int| j <= j2 < page.spec_len() && first_lower(page, range, v, j2)
            && #[trigger] page.key_interval_region@[j2].upper == x,
    ensures
        takes_exactly(page, range, v, j, range_children(page, range, v, j, lower, upper), ix),
    decreases j,
{
    if j <= 0 {
        Seq::empty()
    } else {
        let e = j - 1;
        let fence = page.key_interval_region@[e];
        if entry_in_range(page, e, range, v) && !lower.contains(fence.lower) {
            assert(first_lower(page, range, v, e)) by {
                assert forall|j2: int| e < j2 < page.spec_len() && entry_in_range(page, j2, range, v) implies
                    #[trigger] page.key_interval_region@[j2].lower != page.key_interval_region@[e].lower by {
                    if page.key_interval_region@[j2].lower == fence.lower {
                        assert(lower.contains(fence.lower));
                    }
                }
            }
            let lower2 = lower.push(fence.lower);
            assert forall|x: Key| #[trigger] lower2.contains(x) <==> exists|j2: int| e <= j2 < page.spec_len()
                && entry_in_range(page, j2, range, v) && #[trigger] page.key_interval_region@[j2].lower == x by {
                if lower2.contains(x) {
                    let k = choose|k: int| 0 <= k < lower2.len() && lower2[k] == x;
                    if k < lower.len() {
                        assert(lower[k] == x);
                        assert(lower.contains(x));
                    } else {
                        assert(x == fence.lower);
                        assert(entry_in_range(page, e, range, v) && page.key_interval_region@[e].lower == x);
                    }
                }
                if exists|j2: int| e <= j2 < page.spec_len() && entry_in_range(page, j2, range, v)
                    && #[trigger] page.key_interval_region@[j2].lower == x {
                    let j2 = choose|j2: int| e <= j2 < page.spec_len() && entry_in_range(page, j2, range, v)
                        && #[trigger] page.key_interval_region@[j2].lower == x;
                    if j2 > e {
                        assert(lower.contains(x));
                        let k = choose|k: int| 0 <= k < lower.len() && lower[k] == x;
                        assert(lower2[k] == x);
                    } else {
                        assert(lower2[lower.len() as int] == x);
                    }
                }
            }
            if !upper.contains(fence.upper) {
                assert(range_takes(page, range, v, e)) by {
                    assert forall|j2: int| e < j2 < page.spec_len() && first_lower(page, range, v, j2) implies
                        #[trigger] page.key_interval_region@[j2].upper != page.key_interval_region@[e].upper by {
                        if page.key_interval_region@[j2].upper == fence.upper {
                            assert(upper.contains(fence.upper));
                        }
                    }
                }
                let upper2 = upper.push(fence.upper);
                assert forall|x: Key| #[trigger] upper2.contains(x) <==> exists|j2: int| e <= j2 < page.spec_len()
                    && first_lower(page, range, v, j2) && #[trigger] page.key_interval_region@[j2].upper == x by {
                    if upper2.contains(x) {
                        let k = choose|k: int| 0 <= k < upper2.len() && upper2[k] == x;
                        if k < upper.len() {
                            assert(upper[k] == x);
                            assert(upper.contains(x));
                        } else {
                            assert(x == fence.upper);
                            assert(first_lower(page, range, v, e) && page.key_interval_region@[e].upper == x);
                        }
                    }
                    if exists|j2: int| e <= j2 < page.spec_len() && first_lower(page, range, v, j2)
                        && #[trigger] page.key_interval_region@[j2].upper == x {
                        let j2 = choose|j2: int| e <= j2 < page.spec_len() && first_lower(page, range, v, j2)
                            && #[trigger] page.key_interval_region@[j2].upper == x;
                        if j2 > e {
                            assert(upper.contains(x));
                            let k = choose|k: int| 0 <= k < upper.len() && upper[k] == x;
                            assert(upper2[k] == x);
                        } else {
                            assert(upper2[upper.len() as int] == x);
                        }
                    }
                }
                let rest = lemma_range_children_takes(page, range, v, e, lower2, upper2);
                let kids_rest = range_children(page, range, v, e, lower2, upper2);
                let kids = range_children(page, range, v, j, lower, upper);
                assert(kids == seq![page.pointer_region@[e]] + kids_rest);
                let ix = seq![e] + rest;
                assert forall|i: int| 0 <= i < ix.len() implies 0 <= #[trigger] ix[i] < j && range_takes(page, range, v, ix[i])
                    && kids[i] == page.pointer_region@[ix[i]] by {
                    if i > 0 {
                        assert(ix[i] == rest[i - 1]);
                        assert(kids[i] == kids_rest[i - 1]);
                    }
                }
                assert forall|i1: int, i2: int| 0 <= i1 < i2 < ix.len() implies #[trigger] ix[i1] > #[trigger] ix[i2] by {
                    assert(ix[i2] == rest[i2 - 1]);
                    if i1 > 0 {
                        assert(ix[i1] == rest[i1 - 1]);
                    }
                }
                assert forall|e2: int| 0 <= e2 < j && range_takes(page, range, v, e2) implies exists|i: int|
                    0 <= i < ix.len() && #[trigger] ix[i] == e2 by {
                    if e2 == e {
                        assert(ix[0] == e);
                    } else {
                        let i = choose|i: int| 0 <= i < rest.len() && #[trigger] rest[i] == e2;
                        assert(ix[i + 1] == e2);
                    }
                }
                ix
            } else {
                assert(!range_takes(page, range, v, e)) by {
                    let j2 = choose|j2: int| e + 1 <= j2 < page.spec_len() && first_lower(page, range, v, j2)
                        && #[trigger] page.key_interval_region@[j2].upper == fence.upper;
                    assert(page.key_interval_region@[j2].upper == page.key_interval_region@[e].upper);
                }
                assert forall|x: Key| #[trigger] upper.contains(x) <==> exists|j2: int| e <= j2 < page.spec_len()
                    && first_lower(page, range, v, j2) && #[trigger] page.key_interval_region@[j2].upper == x by {
                    if exists|j2: int| e <= j2 < page.spec_len() && first_lower(page, range, v, j2)
                        && #[trigger] page.key_interval_region@[j2].upper == x {
                        let j2 = choose|j2: int| e <= j2 < page.spec_len() && first_lower(page, range, v, j2)
                            && #[trigger] page.key_interval_region@[j2].upper == x;
                        if j2 == e {
                            assert(upper.contains(fence.upper));
                        }
                    }
                }
                let ix = lemma_range_children_takes(page, range, v, e, lower2, upper);
                assert forall|e2: int| 0 <= e2 < j && range_takes(page, range, v, e2) implies exists|i: int|
                    0 <= i < ix.len() && #[trigger] ix[i] == e2 by {
                    assert(e2 != e);
                }
                ix
            }
        } else {
            if entry_in_range(page, e, range, v) {
                assert(lower.contains(fence.lower));
                let j2 = choose|j2: int| j <= j2 < page.spec_len() && entry_in_range(page, j2, range, v)
                    && #[trigger] page.key_interval_region@[j2].lower == fence.lower;
                assert(!first_lower(page, range, v, e)) by {
                    assert(page.key_interval_region@[j2].lower == page.key_interval_region@[e].lower);
                }
            }
            assert(!range_takes(page, range, v, e));
            assert forall|x: Key| #[trigger] lower.contains(x) <==> exists|j2: int| e <= j2 < page.spec_len()
                && entry_in_range(page, j2, range, v) && #[trigger] page.key_interval_region@[j2].lower == x by {
                if exists|j2: int| e <= j2 < page.spec_len() && entry_in_range(page, j2, range, v)
                    && #[trigger] page.key_interval_region@[j2].lower == x {
                    let j2 = choose|j2: int| e <= j2 < page.spec_len() && entry_in_range(page, j2, range, v)
                        && #[trigger] page.key_interval_region@[j2].lower == x;
                    if j2 == e {
                        assert(lower.contains(fence.lower));
                    }
                }
            }
            assert forall|x: Key| #[trigger] upper.contains(x) <==> exists|j2: int| e <= j2 < page.spec_len()
                && first_lower(page, range, v, j2) && #[trigger] page.key_interval_region@[j2].upper == x by {
                if exists|j2: int| e <= j2 < page.spec_len() && first_lower(page, range, v, j2)
                    && #[trigger] page.key_interval_region@[j2].upper == x {
                    let j2 = choose|j2: int| e <= j2 < page.spec_len() && first_lower(page, range, v, j2)
                        && #[trigger] page.key_interval_region@[j2].upper == x;
                    assert(j2 != e);
                }
            }
            let ix = lemma_range_children_takes(page, range, v, e, lower, upper);
            assert forall|e2: int| 0 <= e2 < j && range_takes(page, range, v, e2) implies exists|i: int|
                0 <= i < ix.len() && #[trigger] ix[i] == e2 by {
                assert(e2 != e);
            }
            ix
        }
    }
}

/// What a range reader of snapshot `v` takes from an index page: the
/// children of exactly the entries it descends through (`range_takes`),
/// newest entry first, so that no two entries it descends through share a
/// lower or an upper fence bound.
pub proof fn law_range_children_distinct_fences<const FAN_OUT: usize>(page: InternalPage<FAN_OUT>, range: Interval, v: Version)
    ensures
        exists|ix: Seq<int>| #[trigger] takes_exactly(
            page,
            range,
            v,
            page.spec_len() as int,
            range_children(page, range, v, page.spec_len() as int, Seq::empty(), Seq::empty()),
            ix,
        ),
        forall|e1: int, e2: int|
            0 <= e1 < e2 < page.spec_len() && range_takes(page, range, v, e1) && range_takes(page, range, v, e2) ==> {
                &&& #[trigger] page.key_interval_region@[e1].lower != #[trigger] page.key_interval_region@[e2].lower
                &&& page.key_interval_region@[e1].upper != page.key_interval_region@[e2].upper
            },
{
    let ix = lemma_range_children_takes(page, range, v, page.spec_len() as int, Seq::empty(), Seq::empty());
    assert forall|e1: int, e2: int|
        0 <= e1 < e2 < page.spec_len() && range_takes(page, range, v, e1) && range_takes(page, range, v, e2) implies {
            &&& #[trigger] page.key_interval_region@[e1].lower != #[trigger] page.key_interval_region@[e2].lower
            &&& page.key_interval_region@[e1].upper != page.key_interval_region@[e2].upper
        } by {
        assert(first_lower(page, range, v, e2));
    }
}

/// The blocks a range reader visits one level below `frontier`, in order.
pub open spec fn range_next_level<const FAN_OUT: usize, const NUM_RECORDS: usize, P>(
    blocks: Seq<Block<FAN_OUT, NUM_RECORDS, P>>,
    frontier: Seq<BlockID>,
    range: Interval,
    v: Version,
) -> Seq<BlockID>
    decreases frontier.len(),
{
    if frontier.len() == 0 {
        Seq::empty()
    } else {
        range_next_level(blocks, frontier.drop_last(), range, v) + match blocks[frontier.last() as int].node_data {
            Node::Index(page) => range_children(page, range, v, page.spec_len(), Seq::empty(), Seq::empty()),
            Node::Leaf(_) => Seq::empty(),
        }
    }
}

/// Block `b` is the child of entry `e` of `block`, an index block, and a range
/// reader of snapshot `v` descends through that entry.
pub open spec fn block_takes<const FAN_OUT: usize, const NUM_RECORDS: usize, P>(
    block: Block<FAN_OUT, NUM_RECORDS, P>,
    range: Interval,
    v: Version,
    e: int,
    b: BlockID,
) -> bool {
    match block.node_data {
        Node::Index(page) => range_takes(page, range, v, e) && page.pointer_region@[e] == b,
        Node::Leaf(_) => false,
    }
}

/// Block `b` is the child of an entry that a range reader of snapshot `v`
/// descends through on one of the pages of `frontier`.
pub open spec fn taken_below<const FAN_OUT: usize, const NUM_RECORDS: usize, P>(
    blocks: Seq<Block<FAN_OUT, NUM_RECORDS, P>>,
    frontier: Seq<BlockID>,
    range: Interval,
    v: Version,
    b: BlockID,
) -> bool {
    exists|f: int, e: int| 0 <= f < frontier.len() && #[trigger] block_takes(blocks[frontier[f] as int], range, v, e, b)
}

/// One level of a range read: every block it reaches below `frontier` is the
/// child of an entry that the reader descends through on a frontier page, and
/// every such child is reached.
pub proof fn law_range_next_level_takes<const FAN_OUT: usize, const NUM_RECORDS: usize, P>(
    blocks: Seq<Block<FAN_OUT, NUM_RECORDS, P>>,
    frontier: Seq<BlockID>,
    range: Interval,
    v: Version,
)
    ensures
        forall|i: int| 0 <= i < range_next_level(blocks, frontier, range, v).len()
            ==> #[trigger] taken_below(blocks, frontier, range, v, range_next_level(blocks, frontier, range, v)[i]),
        forall|b: BlockID| #[trigger] taken_below(blocks, frontier, range, v, b)
            ==> range_next_level(blocks, frontier, range, v).contains(b),
    decreases frontier.len(),
{
    if frontier.len() > 0 {
        let rest = frontier.drop_last();
        law_range_next_level_takes(blocks, rest, range, v);
        let head = range_next_level(blocks, rest, range, v);
        let last = blocks[frontier.last() as int];
        let next = range_next_level(blocks, frontier, range, v);
        let kids = match last.node_data {
            Node::Index(page) => range_children(page, range, v, page.spec_len(), Seq::empty(), Seq::empty()),
            Node::Leaf(_) => Seq::empty(),
        };
        assert(next == head + kids);
        assert forall|b: BlockID| #[trigger] taken_below(blocks, rest, range, v, b) implies taken_below(blocks, frontier, range, v, b) by {
            let (f, e) = choose|f: int, e: int| 0 <= f < rest.len() && #[trigger] block_takes(blocks[rest[f] as int], range, v, e, b);
            assert(rest[f] == frontier[f]);
            assert(block_takes(blocks[frontier[f] as int], range, v, e, b));
        }
        match last.node_data {
            Node::Index(page) => {
                let ix = lemma_range_children_takes(page, range, v, page.spec_len() as int, Seq::empty(), Seq::empty());
                assert forall|i: int| 0 <= i < next.len() implies #[trigger] taken_below(blocks, frontier, range, v, next[i]) by {
                    if i < head.len() {
                        assert(next[i] == head[i]);
                        assert(taken_below(blocks, rest, range, v, head[i]));
                    } else {
                        let k = i - head.len();
                        assert(next[i] == kids[k]);
                        assert(range_takes(page, range, v, ix[k]) && kids[k] == page.pointer_region@[ix[k]]);
                        assert(block_takes(blocks[frontier[frontier.len() - 1] as int], range, v, ix[k], next[i]));
                    }
                }
                assert forall|b: BlockID| #[trigger] taken_below(blocks, frontier, range, v, b) implies next.contains(b) by {
                    let (f, e) = choose|f: int, e: int| 0 <= f < frontier.len()
                        && #[trigger] block_takes(blocks[frontier[f] as int], range, v, e, b);
                    if f < rest.len() {
                        assert(rest[f] == frontier[f]);
                        assert(block_takes(blocks[rest[f] as int], range, v, e, b));
                        assert(taken_below(blocks, rest, range, v, b));
                        let k = choose|k: int| 0 <= k < head.len() && head[k] == b;
                        assert(next[k] == b);
                    } else {
                        assert(range_takes(page, range, v, e));
                        let k = choose|k: int| 0 <= k < ix.len() && #[trigger] ix[k] == e;
                        assert(next[head.len() + k] == kids[k]);
                    }
                }
            },
            Node::Leaf(_) => {
                assert(next == head);
                assert forall|i: int| 0 <= i < next.len() implies #[trigger] taken_below(blocks, frontier, range, v, next[i]) by {
                    assert(taken_below(blocks, rest, range, v, head[i]));
                }
                assert forall|b: BlockID| #[trigger] taken_below(blocks, frontier, range, v, b) implies next.contains(b) by {
                    let (f, e) = choose|f: int, e: int| 0 <= f < frontier.len()
                        && #[trigger] block_takes(blocks[frontier[f] as int], range, v, e, b);
                    assert(f < rest.len());
                    assert(rest[f] == frontier[f]);
                    assert(block_takes(blocks[rest[f] as int], range, v, e, b));
                    assert(taken_below(blocks, rest, range, v, b));
                }
            },
        }
    }
}

/// The blocks a range reader reaches descending `levels` levels from `frontier`.
pub open spec fn range_leaves<const FAN_OUT: usize, const NUM_RECORDS: usize, P>(
    blocks: Seq<Block<FAN_OUT, NUM_RECORDS, P>>,
    frontier: Seq<BlockID>,
    range: Interval,
    v: Version,
    levels: nat,
) -> Seq<BlockID>
    decreases levels,
{
    if levels == 0 {
        frontier
    } else {
        range_leaves(blocks, range_next_level(blocks, frontier, range, v), range, v, (levels - 1) as nat)
    }
}

/// The answers a range reader takes from the first `k` records of a leaf:
/// those visible at `v` whose key lies in `range`, the newest first.
pub open spec fn leaf_range_hits<P>(recs: Seq<RecordPoint<P>>, range: Interval, v: Version, k: int) -> Seq<RecordPointResult<P>>
    decreases k,
{
    if k <= 0 {
        Seq::empty()
    } else {
        let rec = recs[k - 1];
        let rest = leaf_range_hits(recs, range, v, k - 1);
        if rec.version.spec_matches(v) && range.spec_contains(rec.key) {
            seq![RecordPointResult { key: rec.key, payload: rec.payload }] + rest
        } else {
            rest
        }
    }
}

/// The answers of a range read over `leaves`, leaf by leaf.
pub open spec fn range_hits<const FAN_OUT: usize, const NUM_RECORDS: usize, P: Copy>(
    blocks: Seq<Block<FAN_OUT, NUM_RECORDS, P>>,
    leaves: Seq<BlockID>,
    range: Interval,
    v: Version,
) -> Seq<RecordPointResult<P>>
    decreases leaves.len(),
{
    if leaves.len() == 0 {
        Seq::empty()
    } else {
        range_hits(blocks, leaves.drop_last(), range, v) + match blocks[leaves.last() as int].node_data {
            Node::Leaf(l) => leaf_range_hits(l.records(), range, v, l.records().len() as int),
            Node::Index(_) => Seq::empty(),
        }
    }
}

impl<const FAN_OUT: usize, const NUM_RECORDS: usize, P: Copy> MVTreeSt<FAN_OUT, NUM_RECORDS, P> {
    /// The structure the tree keeps at all times: well-formed blocks, a leaf
    /// exactly at level 1, index entries pointing one level down, and a root
    /// history (sorted by version) of valid roots whose heights are their levels.
    pub open spec fn wf(self) -> bool {
        &&& geometry_ok(FAN_OUT, NUM_RECORDS)
        &&& self.blocks@.len() == self.levels@.len()
        &&& self.blocks@.len() < u64::MAX
        &&& forall|b: int| 0 <= b < self.blocks@.len() ==> self.block_ok(b)
        &&& self.root.wf()
        &&& self.root.sorted()
        &&& forall|i: int|
            #![trigger self.root.history()[i]]
            0 <= i < self.root.history().len() ==> {
                let r = self.root.history()[i].payload;
                &&& r.0 < self.blocks@.len()
                &&& self.levels@[r.0 as int] == r.1
            }
        &&& self.root.history()[0].insert_version == START_VERSION
    }

    pub open spec fn block_ok(self, b: int) -> bool {
        &&& self.blocks@[b].wf()
        &&& self.levels@[b] >= 1
        &&& (self.levels@[b] == 1 <==> self.blocks@[b].node_data is Leaf)
        &&& match self.blocks@[b].node_data {
            Node::Leaf(l) => l.counts_ok(),
            Node::Index(page) => forall|j: int|
                #![trigger page.pointer_region@[j]]
                0 <= j < page.spec_len() ==> {
                    &&& page.pointer_region@[j] < self.blocks@.len()
                    &&& self.levels@[page.pointer_region@[j] as int] + 1 == self.levels@[b]
                },
        }
    }

    /// Block facts depend on the blocks and their levels only.
    pub proof fn lemma_blocks_ok_same(a: Self, b: Self)
        requires
            a.blocks == b.blocks,
            a.levels == b.levels,
            forall|i: int| 0 <= i < a.blocks@.len() ==> a.block_ok(i),
        ensures
            forall|i: int| 0 <= i < b.blocks@.len() ==> b.block_ok(i),
    {
        assert forall|i: int| 0 <= i < b.blocks@.len() implies b.block_ok(i) by {
            assert(a.block_ok(i));
        }
    }

    /// The root block for snapshot `v`, per the root history.
    pub open spec fn spec_root_for(self, v: Version) -> Option<ValueRootInner> {
        match newest_at_most(self.root.history(), self.root.head(), v) {
            Some(i) => Some(self.root.history()[i].payload),
            None => None,
        }
    }

    /// What a point read of `key` at snapshot `v` answers.
    pub open spec fn spec_point_read(self, key: Key, v: Version) -> Option<P> {
        match self.spec_root_for(v) {
            None => None,
            Some(r) => match read_route(self.blocks@, r.0 as int, key, v, r.1 as nat) {
                None => None,
                Some(leaf) => match self.blocks@[leaf].node_data {
                    Node::Leaf(l) => lookup(l.records(), key, v),
                    Node::Index(_) => None,
                },
            },
        }
    }

    /// What a range read of `range` at snapshot `v` answers: the records of
    /// the leaves a range reader visits from the root of `v`, leaf by leaf.
    pub open spec fn spec_range_read(self, range: Interval, v: Version) -> Seq<RecordPointResult<P>> {
        match self.spec_root_for(v) {
            None => Seq::empty(),
            Some(r) => range_hits(
                self.blocks@,
                range_leaves(self.blocks@, seq![r.0], range, v, (self.levels@[r.0 as int] - 1) as nat),
                range,
                v,
            ),
        }
    }

    /// A tree holding one empty leaf, the root from the start version on,
    /// its root history kept in a frugal list.
    pub fn new(locking_strategy: LockingStrategy) -> (r: Self)
        requires
            geometry_ok(FAN_OUT, NUM_RECORDS),
        ensures
            r.wf(),
            r.version_inv(),
            r.global_clock.0 == START_VERSION,
            r.blocks@.len() == 1,
            r.root.history().len() == 1,
            r.root.index_kind() == RootIndexType::FrugalList,
            r.locking_strategy == locking_strategy,
            r.min_key == 0,
            r.max_key == u64::MAX,
            forall|k: Key, v: Version| #[trigger] r.spec_point_read(k, v) is None,
            r.block_manager.tracker is None,
            !r.block_manager.update_in_place,
    {
        match Self::make_standard(locking_strategy, RootIndexType::FrugalList) {
            Some(t) => t,
            None => vstd::pervasive::unreached(),
        }
    }

    /// A tree with the optimistic lock coupling protocol and its root
    /// history kept in `root_index_type` (see `make_standard`).
    pub fn olc_optimistic_clock(root_index_type: RootIndexType) -> (r: Option<Self>)
        requires
            geometry_ok(FAN_OUT, NUM_RECORDS),
        ensures
            root_index_type == RootIndexType::BTree <==> r is None,
            r matches Some(t) ==> {
                &&& t.wf()
                &&& t.version_inv()
                &&& t.global_clock.0 == START_VERSION
                &&& t.locking_strategy == LockingStrategy::OLC
                &&& t.root.index_kind() == root_index_type
                &&& forall|k: Key, v: Version| #[trigger] t.spec_point_read(k, v) is None
            },
    {
        Self::make_standard(LockingStrategy::OLC, root_index_type)
    }

    /// The standard tree: optimistic lock coupling, root history in a frugal list.
    pub fn default() -> (r: Self)
        requires
            geometry_ok(FAN_OUT, NUM_RECORDS),
        ensures
            r.wf(),
            r.version_inv(),
            r.global_clock.0 == START_VERSION,
            r.locking_strategy == LockingStrategy::OLC,
            r.root.index_kind() == RootIndexType::FrugalList,
            forall|k: Key, v: Version| #[trigger] r.spec_point_read(k, v) is None,
    {
        match Self::olc_optimistic_clock(RootIndexType::FrugalList) {
            Some(t) => t,
            None => vstd::pervasive::unreached(),
        }
    }

    /// How many roots there were at snapshot `lookup_version`, and how many
    /// there are (see `RootIndex::root_number_for`).
    pub fn retrieve_root_number_for(&self, lookup_version: Version) -> (r: (usize, usize))
        requires
            self.wf(),
            self.root is FrugalList ==> newest_at_most(self.root.history(), self.root.head(), lookup_version) is Some,
        ensures
            match self.root {
                RootIndex::FrugalList(_) => r == ((newest_at_most(
                    self.root.history(),
                    self.root.head(),
                    lookup_version,
                )->Some_0 + 1) as usize, self.root.history().len() as usize),
                RootIndex::LinkedList(_) => r == (
                    if self.root.history()[self.root.head()].insert_version <= lookup_version {
                        self.root.history().len() as usize
                    } else {
                        1usize
                    },
                    self.root.history().len() as usize,
                ),
                RootIndex::SkipList(_) => r == (0usize, 0usize),
            },
    {
        self.root.root_number_for(lookup_version)
    }

    /// The structure the root history is kept in.
    pub fn root_star_index(&self) -> (r: RootIndexType)
        ensures
            r == self.root.index_kind(),
    {
        self.root.index_type()
    }

    /// A tree holding one empty leaf, the root from the start version on,
    /// its root history kept in `root_index_type`; `None` for the B+-tree
    /// root index, which this library does not have.
    pub fn make_standard(locking_strategy: LockingStrategy, root_index_type: RootIndexType) -> (r: Option<Self>)
        requires
            geometry_ok(FAN_OUT, NUM_RECORDS),
        ensures
            root_index_type == RootIndexType::BTree <==> r is None,
            r matches Some(t) ==> {
                &&& t.wf()
                &&& t.version_inv()
                &&& t.global_clock.0 == START_VERSION
                &&& t.blocks@.len() == 1
                &&& t.root.history().len() == 1
                &&& t.root.index_kind() == root_index_type
                &&& t.locking_strategy == locking_strategy
                &&& t.min_key == 0
                &&& t.max_key == u64::MAX
                &&& forall|k: Key, v: Version| #[trigger] t.spec_point_read(k, v) is None
                &&& t.leaf_root_writable()
                &&& forall|k: Key| #[trigger] t.write_leaf_records(k) == Some(Seq::<RecordPoint<P>>::empty())
                &&& t.block_manager.tracker is None
                &&& !t.block_manager.update_in_place
            },
    {
        let root = match RootIndex::new(root_index_type, 0) {
            Some(r) => r,
            None => {
                return None;
            },
        };
        let mut blocks = Vec::new();
        let leaf = Block::<FAN_OUT, NUM_RECORDS, P>::default();
        blocks.push(leaf);
        let mut levels = Vec::new();
        levels.push(INIT_TREE_HEIGHT);
        let t = MVTreeSt {
            blocks,
            levels,
            root,
            global_clock: GlobalClock::new(),
            block_manager: BlockAllocManager::new(),
            locking_strategy,
            min_key: 0,
            max_key: u64::MAX,
        };
        proof {
            assert(t.block_ok(0));
            assert forall|k: Key, v: Version| #[trigger] t.spec_point_read(k, v) is None by {
                match t.spec_root_for(v) {
                    None => {},
                    Some(r) => {
                        assert(t.root.history().len() == 1);
                        if v < START_VERSION {
                            assert(newest_at_most(t.root.history(), -1, v) is None);
                            assert(newest_at_most(t.root.history(), 0, v) is None);
                        }
                        assert(newest_at_most(t.root.history(), 0, v) == Some(0int));
                        assert(r == t.root.history()[0].payload);
                        assert(r.0 == 0);
                        match t.blocks@[0].node_data {
                            Node::Leaf(l) => {
                                assert(l.records() =~= Seq::<RecordPoint<P>>::empty());
                            },
                            Node::Index(_) => {},
                        }
                    },
                }
            }
            assert(t.head_root_block() == 0);
            assert(t.blocks@[0].node_data matches Node::Leaf(l) && l.records() =~= Seq::<RecordPoint<P>>::empty());
            assert forall|k: Key| #[trigger] t.write_leaf_records(k) == Some(Seq::<RecordPoint<P>>::empty()) by {
                assert(write_route(t.blocks@, 0, k, INIT_TREE_HEIGHT as nat) == Some(0int));
            }
        }
        Some(t)
    }

    /// Number of roots in the history.
    pub fn count_roots(&self) -> (r: usize)
        requires
            self.wf(),
        ensures
            r == self.root.history().len(),
    {
        self.root.count_roots()
    }

    /// Garbage collection is on and an update may rewrite a record in place.
    pub open spec fn in_place_on(self) -> bool {
        self.block_manager.tracker is Some && self.block_manager.update_in_place
    }

    /// Whether a garbage-collection tracker is set, and whether updates may
    /// rewrite in place.
    pub open spec fn gc_mode(self) -> (bool, bool) {
        (self.block_manager.tracker is Some, self.block_manager.update_in_place)
    }

    /// Everything but the block manager is the same in both trees.
    pub open spec fn same_but_gc(self, other: Self) -> bool {
        &&& self.blocks == other.blocks
        &&& self.levels == other.levels
        &&& self.root == other.root
        &&& self.global_clock == other.global_clock
        &&& self.locking_strategy == other.locking_strategy
        &&& self.min_key == other.min_key
        &&& self.max_key == other.max_key
    }

    /// Turns garbage collection on with a fresh tracker (no reader, no dead
    /// page); `update_in_place` says whether updates may rewrite a record that
    /// no active reader can see any more.
    pub fn enable_gc(&mut self, update_in_place: bool)
        ensures
            final(self).same_but_gc(*old(self)),
            final(self).block_manager.tracker matches Some(t) && t.live_tx.readers() == Set::<(u64, usize)>::empty()
                && t.dead_blocks.pages() == Map::<u64, u64>::empty(),
            final(self).block_manager.update_in_place == update_in_place,
    {
        self.block_manager.pass_aux_tx_tracker(Some(TrackerHandleSt::new()));
        self.block_manager.set_update_in_place(update_in_place);
    }

    /// Turns garbage collection off: the tracker is dropped.
    pub fn disable_gc(&mut self)
        ensures
            final(self).same_but_gc(*old(self)),
            final(self).block_manager.tracker is None,
            final(self).block_manager.update_in_place == old(self).block_manager.update_in_place,
    {
        self.block_manager.del_aux();
    }

    /// The version the clock hands out next.
    pub fn current_version(&self) -> (r: Version)
        ensures
            r == self.global_clock.0,
    {
        self.global_clock.current_version()
    }

    /// The locking strategy the tree was built with.
    pub fn locking_strategy(&self) -> (r: LockingStrategy)
        ensures
            r == self.locking_strategy,
    {
        self.locking_strategy
    }

    /// The root valid at snapshot `version`; only for snapshots from the start
    /// version on.
    pub fn root_for(&self, version: Version) -> (r: Root)
        requires
            self.wf(),
            version >= START_VERSION,
        ensures
            self.spec_root_for(version) == Some(ValueRootInner(r.block, r.height)),
            r.block < self.blocks@.len(),
    {
        proof {
            crate::mv_root::frugal_root::lemma_newest_at_most(self.root.history(), self.root.head(), version);
            assert(self.root.history()[0].insert_version <= version);
        }
        match self.root.root_for(version) {
            Some((inner, v)) => {
                proof {
                    let k = newest_at_most(self.root.history(), self.root.head(), version);
                    assert(k is Some);
                }
                Root::new(inner.block(), v, inner.height())
            },
            None => vstd::pervasive::unreached(),
        }
    }

    /// The root block valid at snapshot `lookup_version`.
    pub fn retrieve_root_for(&self, lookup_version: Version) -> (r: BlockID)
        requires
            self.wf(),
            lookup_version >= START_VERSION,
        ensures
            self.spec_root_for(lookup_version) matches Some(root) && r == root.0,
    {
        self.root_for(lookup_version).block
    }

    /// The newest root.
    pub fn current_root(&self) -> (r: Root)
        requires
            self.wf(),
        ensures
            r.block == self.root.history()[self.root.head()].payload.0,
            r.height == self.root.history()[self.root.head()].payload.1,
            r.version == self.root.history()[self.root.head()].insert_version,
    {
        let (inner, version) = self.root.current_root();
        Root::new(inner.block(), version, inner.height())
    }

    /// The entry of index page `page` a reader of snapshot `version` follows
    /// for `key`.
    fn read_entry_of(page: &InternalPage<FAN_OUT>, key: Key, version: Version) -> (r: Option<usize>)
        requires
            page.wf(),
        ensures
            r matches Some(i) ==> read_entry(*page, key, version, page.spec_len()) == Some(i as int),
            r is None ==> read_entry(*page, key, version, page.spec_len()) is None,
    {
        let n = page.version_region.len();
        let mut i = n;
        while i > 0
            invariant
                i <= n,
                n == page.spec_len(),
                page.wf(),
                read_entry(*page, key, version, n as int) == read_entry(*page, key, version, i as int),
            decreases i,
        {
            let v = page.version_region[i - 1];
            let fence = page.key_interval_region[i - 1];
            if v.matched(version) && fence.contains(key) {
                return Some(i - 1);
            }
            i = i - 1;
        }
        None
    }

    /// The leaf a reader of snapshot `version` reaches for `key` from `block`
    /// (`None` where an index page on the way has no entry for it).
    pub fn traverse_read_key(&self, block: BlockID, key: Key, version: Version) -> (r: Option<BlockID>)
        requires
            self.wf(),
            block < self.blocks@.len(),
        ensures
            r matches Some(b) ==> b < self.blocks@.len() && self.blocks@[b as int].node_data is Leaf,
            r matches Some(b) ==> read_route(self.blocks@, block as int, key, version, self.levels@[block as int] as nat) == Some(b as int),
            r is None ==> read_route(self.blocks@, block as int, key, version, self.levels@[block as int] as nat) is None,
    {
        let mut curr = block;
        let n_blocks = self.blocks.len();
        proof {
            assert(self.block_ok(block as int));
        }
        loop
            invariant
                self.wf(),
                n_blocks == self.blocks@.len(),
                curr < self.blocks@.len(),
                read_route(self.blocks@, block as int, key, version, self.levels@[block as int] as nat)
                    == read_route(self.blocks@, curr as int, key, version, self.levels@[curr as int] as nat),
            decreases self.levels@[curr as int],
        {
            proof {
                assert(self.block_ok(curr as int));
            }
            let blk = &self.blocks[curr as usize];
            proof {
                assert(self.blocks@[curr as int] == *blk);
                assert(blk.wf());
            }
            match &blk.node_data {
                Node::Leaf(_) => {
                    proof {
                        assert(self.blocks@[curr as int] == *blk);
                        assert(self.blocks@[curr as int].node_data is Leaf);
                    }
                    return Some(curr);
                },
                Node::Index(page) => {
                    match Self::read_entry_of(page, key, version) {
                        None => {
                            return None;
                        },
                        Some(j) => {
                            proof {
                                lemma_read_entry(*page, key, version, page.spec_len());
                            }
                            let next = page.pointer_region[j];
                            proof {
                                assert(page.pointer_region@[j as int] == next);
                                assert(self.levels@[curr as int] >= 1);
                                assert(self.levels@[curr as int] as nat - 1 == self.levels@[next as int] as nat);
                            }
                            curr = next;
                        },
                    }
                },
            }
        }
    }

    /// The answer of a point read of `key` at snapshot `version` from root
    /// `root`: the newest record of `key` visible at `version` in the leaf the
    /// reader reaches, or no record.
    pub fn key_point_read_from_root(&self, root: BlockID, key: Key, version: Version) -> (r: CRUDOperationResult<P>)
        requires
            self.wf(),
            root < self.blocks@.len(),
        ensures
            r matches CRUDOperationResult::MatchedRecords(v) && match read_route(self.blocks@, root as int, key, version, self.levels@[root as int] as nat) {
                None => v@.len() == 0,
                Some(leaf) => match self.blocks@[leaf].node_data {
                    Node::Leaf(l) => match lookup(l.records(), key, version) {
                        None => v@.len() == 0,
                        Some(p) => v@ == seq![RecordPointResult { key, payload: p }],
                    },
                    Node::Index(_) => v@.len() == 0,
                },
            },
    {
        match self.traverse_read_key(root, key, version) {
            None => CRUDOperationResult::MatchedRecords(Vec::new()),
            Some(leaf) => {
                let n_blocks = self.blocks.len();
                let blk = &self.blocks[leaf as usize];
                proof {
                    assert(self.blocks@[leaf as int] == *blk);
                    assert(self.block_ok(leaf as int));
                }
                match &blk.node_data {
                    Node::Leaf(l) => {
                        let it = l.as_records().reverse();
                        let found = it.find_key_version(l, key, version);
                        proof {
                            lemma_visible_index(l.records(), key, version);
                        }
                        match found {
                            None => {
                                proof {
                                    if visible_index(l.records(), key, version) is Some {
                                        let i = visible_index(l.records(), key, version)->0;
                                        assert(is_hit(l.records(), i, key, version));
                                    }
                                }
                                CRUDOperationResult::MatchedRecords(Vec::new())
                            },
                            Some(res) => {
                                proof {
                                    let i = choose|i: int| crate::mv_page_model::leaf_page::is_answer(l.records(), true, i, key, version, res);
                                    let k = visible_index(l.records(), key, version);
                                    assert(k is Some) by {
                                        if k is None {
                                            assert(is_hit(l.records(), i, key, version));
                                        }
                                    }
                                    let kk = k->0;
                                    if kk < i {
                                        assert(is_hit(l.records(), i, key, version));
                                    } else if kk > i {
                                        assert(is_hit(l.records(), kk, key, version));
                                    }
                                }
                                let mut out = Vec::new();
                                out.push(res);
                                proof {
                                    assert(out@ =~= seq![res]);
                                }
                                CRUDOperationResult::MatchedRecords(out)
                            },
                        }
                    },
                    Node::Index(_) => CRUDOperationResult::MatchedRecords(Vec::new()),
                }
            },
        }
    }

    /// The leaves a range reader of snapshot `version` visits for
    /// `lookup_range` from `block`, level by level, in the order it reaches them.
    pub fn traverse_read_key_range(&self, block: BlockID, lookup_range: &Interval, version: Version) -> (r: Vec<BlockID>)
        requires
            self.wf(),
            block < self.blocks@.len(),
        ensures
            r@ == range_leaves(self.blocks@, seq![block], *lookup_range, version, (self.levels@[block as int] - 1) as nat),
            forall|i: int| 0 <= i < r@.len() ==> (#[trigger] r@[i]) < self.blocks@.len()
                && self.blocks@[r@[i] as int].node_data is Leaf,
    {
        let n_blocks = self.blocks.len();
        let mut frontier: Vec<BlockID> = Vec::new();
        frontier.push(block);
        let mut level: Height = self.levels[block as usize];
        proof {
            assert(self.block_ok(block as int));
            assert(frontier@ =~= seq![block]);
        }
        while level > 1
            invariant
                self.wf(),
                n_blocks == self.blocks@.len(),
                level >= 1,
                forall|i: int| 0 <= i < frontier@.len() ==> (#[trigger] frontier@[i]) < self.blocks@.len()
                    && self.levels@[frontier@[i] as int] == level,
                range_leaves(self.blocks@, seq![block], *lookup_range, version, (self.levels@[block as int] - 1) as nat)
                    == range_leaves(self.blocks@, frontier@, *lookup_range, version, (level - 1) as nat),
            decreases level,
        {
            let mut next: Vec<BlockID> = Vec::new();
            let mut f: usize = 0;
            proof {
                assert(frontier@.take(0) =~= Seq::<BlockID>::empty());
            }
            while f < frontier.len()
                invariant
                    self.wf(),
                    n_blocks == self.blocks@.len(),
                    level > 1,
                    f <= frontier@.len(),
                    forall|i: int| 0 <= i < frontier@.len() ==> (#[trigger] frontier@[i]) < self.blocks@.len()
                        && self.levels@[frontier@[i] as int] == level,
                    forall|i: int| 0 <= i < next@.len() ==> (#[trigger] next@[i]) < self.blocks@.len()
                        && self.levels@[next@[i] as int] == level - 1,
                    next@ == range_next_level(self.blocks@, frontier@.take(f as int), *lookup_range, version),
                decreases frontier@.len() - f,
            {
                let b = frontier[f];
                let blk = &self.blocks[b as usize];
                proof {
                    assert(self.blocks@[b as int] == *blk);
                    assert(self.block_ok(b as int));
                    let t = frontier@.take(f + 1);
                    assert(t.drop_last() =~= frontier@.take(f as int));
                    assert(t.last() == b);
                }
                match &blk.node_data {
                    Node::Index(page) => {
                        let ghost start = next@;
                        let mut seen_lower: Vec<Key> = Vec::new();
                        let mut seen_upper: Vec<Key> = Vec::new();
                        let n = page.version_region.len();
                        let mut j = n;
                        proof {
                            assert(next@ + range_children(*page, *lookup_range, version, j as int, seen_lower@, seen_upper@)
                                =~= start + range_children(*page, *lookup_range, version, n as int, Seq::empty(), Seq::empty()));
                        }
                        while j > 0
                            invariant
                                self.wf(),
                                n_blocks == self.blocks@.len(),
                                j <= n,
                                n == page.spec_len(),
                                page.wf(),
                                self.blocks@[b as int].node_data == Node::<FAN_OUT, NUM_RECORDS, P>::Index(*page),
                                b < self.blocks@.len(),
                                self.levels@[b as int] == level,
                                level > 1,
                                forall|i: int| 0 <= i < next@.len() ==> (#[trigger] next@[i]) < self.blocks@.len()
                                    && self.levels@[next@[i] as int] == level - 1,
                                next@ + range_children(*page, *lookup_range, version, j as int, seen_lower@, seen_upper@)
                                    == start + range_children(*page, *lookup_range, version, n as int, Seq::empty(), Seq::empty()),
                            decreases j,
                        {
                            let v = page.version_region[j - 1];
                            let fence = page.key_interval_region[j - 1];
                            let ghost before = next@;
                            let ghost lo = seen_lower@;
                            let ghost up = seen_upper@;
                            if v.matched(version) && lookup_range.overlap(&fence) {
                                if !contains_key(&seen_lower, fence.lower) {
                                    seen_lower.push(fence.lower);
                                    if !contains_key(&seen_upper, fence.upper) {
                                        seen_upper.push(fence.upper);
                                        let child = page.pointer_region[j - 1];
                                        proof {
                                            assert(self.block_ok(b as int));
                                            assert(page.pointer_region@[j - 1] == child);
                                        }
                                        next.push(child);
                                        proof {
                                            assert(next@ + range_children(*page, *lookup_range, version, j - 1, seen_lower@, seen_upper@)
                                                =~= before + range_children(*page, *lookup_range, version, j as int, lo, up));
                                        }
                                    }
                                }
                            }
                            j = j - 1;
                        }
                        proof {
                            assert(next@ =~= start + range_children(*page, *lookup_range, version, n as int, Seq::empty(), Seq::empty()));
                        }
                    },
                    Node::Leaf(_) => {
                        proof {
                            assert(next@ =~= next@ + Seq::<BlockID>::empty());
                        }
                    },
                }
                f = f + 1;
            }
            proof {
                assert(frontier@.take(frontier@.len() as int) =~= frontier@);
            }
            frontier = next;
            level = level - 1;
        }
        proof {
            assert forall|i: int| 0 <= i < frontier@.len() implies (#[trigger] frontier@[i]) < self.blocks@.len()
                && self.blocks@[frontier@[i] as int].node_data is Leaf by {
                assert(self.block_ok(frontier@[i] as int));
            }
        }
        frontier
    }

    /// The answer of a range read of `lookup_range` at snapshot `version` from
    /// root `root`: for each leaf the reader visits, in order, its records
    /// visible at `version` whose key lies in the range, newest first.
    pub fn key_range_read_from_root(&self, root: BlockID, lookup_range: Interval, version: Version) -> (r: CRUDOperationResult<P>)
        requires
            self.wf(),
            root < self.blocks@.len(),
        ensures
            r matches CRUDOperationResult::MatchedRecords(v) && v@ == range_hits(
                self.blocks@,
                range_leaves(self.blocks@, seq![root], lookup_range, version, (self.levels@[root as int] - 1) as nat),
                lookup_range,
                version,
            ),
    {
        let leaves = self.traverse_read_key_range(root, &lookup_range, version);
        let mut out: Vec<RecordPointResult<P>> = Vec::new();
        let n_blocks = self.blocks.len();
        let mut li: usize = 0;
        proof {
            assert(leaves@.take(0) =~= Seq::<BlockID>::empty());
        }
        while li < leaves.len()
            invariant
                self.wf(),
                n_blocks == self.blocks@.len(),
                li <= leaves@.len(),
                forall|i: int| 0 <= i < leaves@.len() ==> (#[trigger] leaves@[i]) < self.blocks@.len()
                    && self.blocks@[leaves@[i] as int].node_data is Leaf,
                out@ == range_hits(self.blocks@, leaves@.take(li as int), lookup_range, version),
            decreases leaves@.len() - li,
        {
            let b = leaves[li];
            let blk = &self.blocks[b as usize];
            proof {
                assert(self.blocks@[b as int] == *blk);
                assert(self.block_ok(b as int));
                let t = leaves@.take(li + 1);
                assert(t.drop_last() =~= leaves@.take(li as int));
                assert(t.last() == b);
            }
            match &blk.node_data {
                Node::Leaf(l) => {
                    let ghost start = out@;
                    let n = l.len();
                    let mut k = n;
                    proof {
                        assert(out@ + leaf_range_hits(l.records(), lookup_range, version, k as int)
                            =~= start + leaf_range_hits(l.records(), lookup_range, version, n as int));
                    }
                    while k > 0
                        invariant
                            k <= n,
                            n == l.committed_len(),
                            l.wf(),
                            out@ + leaf_range_hits(l.records(), lookup_range, version, k as int)
                                == start + leaf_range_hits(l.records(), lookup_range, version, n as int),
                        decreases k,
                    {
                        let rec = l.slots[k - 1];
                        let ghost before = out@;
                        proof {
                            assert(l.records()[k - 1] == rec);
                        }
                        if rec.version.matches(version) && lookup_range.contains(rec.key) {
                            let res = RecordPointResult::new(rec.key, rec.payload);
                            out.push(res);
                            proof {
                                assert(out@ + leaf_range_hits(l.records(), lookup_range, version, k - 1)
                                    =~= before + leaf_range_hits(l.records(), lookup_range, version, k as int));
                            }
                        }
                        k = k - 1;
                    }
                    proof {
                        assert(out@ =~= start + leaf_range_hits(l.records(), lookup_range, version, n as int));
                        assert(l.records().len() == n);
                    }
                },
                Node::Index(_) => {},
            }
            li = li + 1;
        }
        proof {
            assert(leaves@.take(leaves@.len() as int) =~= leaves@);
        }
        CRUDOperationResult::MatchedRecords(out)
    }
}

} // verus!
