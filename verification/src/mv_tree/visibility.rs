use vstd::prelude::*;
use crate::mv_block::block::Block;
use crate::mv_page_model::internal_page::InternalPage;
use crate::mv_page_model::node::Node;
use crate::mv_query::time_matcher::{spec_obsolete, spec_plain};
use crate::mv_record_model::record_point::Key;
use crate::mv_record_model::version_info::Version;
use crate::mv_sync::version_handle::START_VERSION;
use crate::mv_page_model::record_history::{law_insert_visible_from_its_version, lookup};
use crate::mv_record_model::record_point::RecordPoint;
use crate::mv_record_model::version_info::VersionInfo;
use crate::mv_root::frugal_root::{lemma_newest_at_most, newest_at_most};
use crate::mv_utils::interval::Interval;
use crate::mv_tree::smo::{split_fences, replacement_entries, merge_entries, mark_obsolete_at, spec_dec_key, active_of, entries_key_split, lemma_active_of, page_entries, split_content, merge_content, BlockSplit, Entry, MergeResult};
use crate::mv_tree::mvtree::{
    entry_routes, entry_writes, lemma_read_entry, lemma_write_entry, read_entry, read_route, write_entry, MVTreeSt,
};

verus! {

/// Every obsolete entry of `page` is followed, for each key of its fence, by
/// a later entry whose fence holds that key: the last entry holding a key is
/// never obsolete.
pub open spec fn covered_after<const FAN_OUT: usize>(page: InternalPage<FAN_OUT>) -> bool {
    forall|j: int, k: Key|
        #![trigger page.version_region@[j], page.key_interval_region@[j].spec_contains(k)]
        0 <= j < page.spec_len() && spec_obsolete(page.version_region@[j]) && page.key_interval_region@[j].spec_contains(k)
            ==> exists|j2: int| j < j2 < page.spec_len() && #[trigger] page.key_interval_region@[j2].spec_contains(k)
}

/// What the tree keeps of an index page's versions: every entry is older than
/// the clock, and the last entry holding a key is never obsolete.
pub open spec fn page_inv<const FAN_OUT: usize>(page: InternalPage<FAN_OUT>, clock: Version) -> bool {
    &&& forall|j: int| 0 <= j < page.spec_len() ==> spec_plain(#[trigger] page.version_region@[j]) < clock
    &&& covered_after(page)
}

/// The leaf a writer of `key` reaches from block `b`, following at most
/// `fuel` index levels along the last active entry whose fence holds the key.
pub open spec fn write_route<const FAN_OUT: usize, const NUM_RECORDS: usize, P>(
    blocks: Seq<Block<FAN_OUT, NUM_RECORDS, P>>,
    b: int,
    key: Key,
    fuel: nat,
) -> Option<int>
    decreases fuel,
{
    if !(0 <= b < blocks.len()) {
        None
    } else {
        match blocks[b].node_data {
            Node::Leaf(_) => Some(b),
            Node::Index(page) => if fuel == 0 {
                None
            } else {
                match write_entry(page, key, page.spec_len()) {
                    None => None,
                    Some(j) => write_route(blocks, page.pointer_region@[j] as int, key, (fuel - 1) as nat),
                }
            },
        }
    }
}

/// When every entry of a page is at most `v`, a reader of snapshot `v`
/// follows the entry a writer follows.
pub proof fn lemma_read_is_write_entry<const FAN_OUT: usize>(page: InternalPage<FAN_OUT>, key: Key, v: Version, clock: Version)
    requires
        page.wf(),
        page_inv(page, clock),
        clock <= v + 1,
    ensures
        read_entry(page, key, v, page.spec_len()) == write_entry(page, key, page.spec_len()),
{
    let n = page.spec_len();
    lemma_read_entry(page, key, v, n);
    lemma_write_entry(page, key, n);
    match read_entry(page, key, v, n) {
        None => {
            if let Some(i) = write_entry(page, key, n) {
                assert(spec_plain(page.version_region@[i]) < clock);
                assert(entry_routes(page, i, key, v));
            }
        },
        Some(i) => {
            if spec_obsolete(page.version_region@[i]) {
                assert(page.key_interval_region@[i].spec_contains(key));
                let j2 = choose|j2: int| i < j2 < n && #[trigger] page.key_interval_region@[j2].spec_contains(key);
                assert(spec_plain(page.version_region@[j2]) < clock);
                assert(entry_routes(page, j2, key, v));
            }
            assert(entry_writes(page, i, key));
            match write_entry(page, key, n) {
                None => {},
                Some(i2) => {
                    if i2 > i {
                        assert(spec_plain(page.version_region@[i2]) < clock);
                        assert(entry_routes(page, i2, key, v));
                    }
                },
            }
        },
    }
}

/// Every entry is active and older than `clock`.
pub open spec fn entries_fresh(es: Seq<Entry>, clock: Version) -> bool {
    forall|i: int| 0 <= i < es.len() ==> !spec_obsolete((#[trigger] es[i]).1) && spec_plain(es[i].1) < clock
}

pub proof fn lemma_active_of_fresh<const FAN_OUT: usize>(page: InternalPage<FAN_OUT>, clock: Version)
    requires
        page.wf(),
        page_inv(page, clock),
    ensures
        entries_fresh(active_of(page, page.spec_len()), clock),
{
    lemma_active_of(page, page.spec_len());
    let a = active_of(page, page.spec_len());
    assert forall|i: int| 0 <= i < a.len() implies !spec_obsolete((#[trigger] a[i]).1) && spec_plain(a[i].1) < clock by {
        let j = choose|j: int| 0 <= j < page.spec_len() && a[i] == (
            page.key_interval_region@[j], page.version_region@[j], page.pointer_region@[j]);
        assert(spec_plain(page.version_region@[j]) < clock);
    }
}

/// Entries drawn (as a multiset) from fresh entries are fresh.
pub proof fn lemma_fresh_from_multiset(src: Seq<Entry>, a: Seq<Entry>, b: Seq<Entry>, clock: Version)
    requires
        entries_fresh(src, clock),
        (a + b).to_multiset() == src.to_multiset(),
    ensures
        entries_fresh(a, clock),
        entries_fresh(b, clock),
{
    broadcast use vstd::seq_lib::group_to_multiset_ensures;
    assert forall|i: int| 0 <= i < a.len() implies !spec_obsolete((#[trigger] a[i]).1) && spec_plain(a[i].1) < clock by {
        assert((a + b)[i] == a[i]);
        assert((a + b).to_multiset().count(a[i]) > 0);
        assert(src.contains(a[i]));
        let k = choose|k: int| 0 <= k < src.len() && src[k] == a[i];
        assert(src[k] == a[i]);
    }
    assert forall|i: int| 0 <= i < b.len() implies !spec_obsolete((#[trigger] b[i]).1) && spec_plain(b[i].1) < clock by {
        assert((a + b)[a.len() + i] == b[i]);
        assert((a + b).to_multiset().count(b[i]) > 0);
        assert(src.contains(b[i]));
        let k = choose|k: int| 0 <= k < src.len() && src[k] == b[i];
        assert(src[k] == b[i]);
    }
}

pub proof fn lemma_fresh_concat(a: Seq<Entry>, b: Seq<Entry>, clock: Version)
    requires
        entries_fresh(a, clock),
        entries_fresh(b, clock),
    ensures
        entries_fresh(a + b, clock),
{
    assert forall|i: int| 0 <= i < (a + b).len() implies !spec_obsolete((#[trigger] (a + b)[i]).1) && spec_plain((a + b)[i].1) < clock by {
        if i < a.len() {
            assert((a + b)[i] == a[i]);
        } else {
            assert((a + b)[i] == b[i - a.len()]);
        }
    }
}

/// A page of fresh entries keeps the version facts.
pub proof fn lemma_fresh_page_inv<const FAN_OUT: usize>(page: InternalPage<FAN_OUT>, clock: Version)
    requires
        entries_fresh(page_entries(page), clock),
    ensures
        page_inv(page, clock),
{
    assert forall|j: int| 0 <= j < page.spec_len() implies spec_plain(#[trigger] page.version_region@[j]) < clock
        && !spec_obsolete(page.version_region@[j]) by {
        assert(page_entries(page)[j].1 == page.version_region@[j]);
    }
}

/// Every key of fence `f` is held by the fence of one of `extra`.
pub open spec fn covers(extra: Seq<Entry>, f: Interval) -> bool {
    forall|k: Key| f.spec_contains(k) ==> exists|t: int| 0 <= t < extra.len() && #[trigger] extra[t].0.spec_contains(k)
}

/// The two halves of a key split cover the fence split.
pub proof fn lemma_split_fences_cover(fence: Interval, s0: u64, w: Version, x: u64, y: u64)
    ensures
        covers(seq![(split_fences(fence, s0).0, w, x), (split_fences(fence, s0).1, w, y)], fence),
{
    let extra = seq![(split_fences(fence, s0).0, w, x), (split_fences(fence, s0).1, w, y)];
    assert forall|k: Key| fence.spec_contains(k) implies exists|t: int| 0 <= t < extra.len() && #[trigger] extra[t].0.spec_contains(k) by {
        if k >= s0 {
            assert(extra[1].0.spec_contains(k));
        } else {
            assert(extra[0].0.spec_contains(k));
        }
    }
}

/// What replaces a child after a split covers the child's fence.
pub proof fn lemma_replacement_covers<const FAN_OUT: usize, const NUM_RECORDS: usize, P: Copy>(
    old_blk: Block<FAN_OUT, NUM_RECORDS, P>,
    fence: Interval,
    blocks: Seq<Block<FAN_OUT, NUM_RECORDS, P>>,
    s: BlockSplit,
    w: Version,
)
    requires
        split_content(old_blk, fence, blocks, s),
    ensures
        covers(replacement_entries(s, fence, w), fence),
{
    match s {
        BlockSplit::ByKey(lf, x, rf, y) => {
            lemma_split_fences_cover(fence, rf.lower, w, x, y);
            assert(replacement_entries(s, fence, w) == seq![(split_fences(fence, rf.lower).0, w, x), (split_fences(fence, rf.lower).1, w, y)]);
        },
        BlockSplit::ByVersion(x) => {
            let extra = replacement_entries(s, fence, w);
            assert forall|k: Key| fence.spec_contains(k) implies exists|t: int| 0 <= t < extra.len() && #[trigger] extra[t].0.spec_contains(k) by {
                assert(extra[0].0.spec_contains(k));
            }
        },
    }
}

/// What replaces two merged children covers both their fences.
pub proof fn lemma_merge_covers<const FAN_OUT: usize, const NUM_RECORDS: usize, P: Copy>(
    simba: Block<FAN_OUT, NUM_RECORDS, P>,
    cand: Block<FAN_OUT, NUM_RECORDS, P>,
    sf: Interval,
    cf: Interval,
    blocks: Seq<Block<FAN_OUT, NUM_RECORDS, P>>,
    m: MergeResult,
    w: Version,
)
    requires
        merge_content(simba, cand, sf, cf, blocks, m),
        m matches MergeResult::Merged(_, c2, _) ==> c2 == cf,
    ensures
        covers(merge_entries(m, sf, w), sf),
        covers(merge_entries(m, sf, w), cf),
{
    let extra = merge_entries(m, sf, w);
    match m {
        MergeResult::Merged(_, _, _) => {
            assert forall|k: Key| sf.spec_contains(k) implies exists|t: int| 0 <= t < extra.len() && #[trigger] extra[t].0.spec_contains(k) by {
                assert(extra[0].0.spec_contains(k));
            }
            assert forall|k: Key| cf.spec_contains(k) implies exists|t: int| 0 <= t < extra.len() && #[trigger] extra[t].0.spec_contains(k) by {
                assert(extra[0].0.spec_contains(k));
            }
        },
        MergeResult::KeySplit(_, BlockSplit::ByKey(lf, x, rf, y)) => {
            assert forall|k: Key| sf.spec_contains(k) implies exists|t: int| 0 <= t < extra.len() && #[trigger] extra[t].0.spec_contains(k) by {
                if k >= rf.lower {
                    assert(extra[1].0.spec_contains(k));
                } else {
                    assert(extra[0].0.spec_contains(k));
                }
            }
            assert forall|k: Key| cf.spec_contains(k) implies exists|t: int| 0 <= t < extra.len() && #[trigger] extra[t].0.spec_contains(k) by {
                if k >= rf.lower {
                    assert(extra[1].0.spec_contains(k));
                } else {
                    assert(extra[0].0.spec_contains(k));
                }
            }
        },
        _ => {},
    }
}

/// A page made of the entries of `p`, some of them newly marked obsolete, and
/// fresh entries that cover each newly marked fence keeps the version facts.
pub proof fn lemma_grown_page_inv<const FAN_OUT: usize>(
    p: InternalPage<FAN_OUT>,
    p2: InternalPage<FAN_OUT>,
    e: Seq<Entry>,
    extra: Seq<Entry>,
    clock: Version,
    clock2: Version,
)
    requires
        page_inv(p, clock),
        clock <= clock2,
        page_entries(p2) == e + extra,
        e.len() == p.spec_len(),
        forall|i: int| 0 <= i < e.len() ==> {
            &&& (#[trigger] e[i]).0 == p.key_interval_region@[i]
            &&& spec_plain(e[i].1) == spec_plain(p.version_region@[i])
            &&& spec_obsolete(e[i].1) ==> spec_obsolete(p.version_region@[i]) || covers(extra, e[i].0)
        },
        entries_fresh(extra, clock2),
    ensures
        page_inv(p2, clock2),
{
    let n = p.spec_len();
    assert(p2.spec_len() == e.len() + extra.len()) by {
        assert(page_entries(p2).len() == p2.spec_len());
    }
    assert forall|j: int| 0 <= j < p2.spec_len() implies spec_plain(#[trigger] p2.version_region@[j]) < clock2 by {
        assert(page_entries(p2)[j].1 == p2.version_region@[j]);
        if j < n {
            assert(page_entries(p2)[j] == e[j]);
            assert(spec_plain(p.version_region@[j]) < clock);
        } else {
            assert(page_entries(p2)[j] == extra[j - n]);
        }
    }
    assert forall|j: int, k: Key|
        #![trigger p2.version_region@[j], p2.key_interval_region@[j].spec_contains(k)]
        0 <= j < p2.spec_len() && spec_obsolete(p2.version_region@[j]) && p2.key_interval_region@[j].spec_contains(k)
            implies exists|j2: int| j < j2 < p2.spec_len() && #[trigger] p2.key_interval_region@[j2].spec_contains(k) by {
        assert(page_entries(p2)[j].1 == p2.version_region@[j]);
        assert(page_entries(p2)[j].0 == p2.key_interval_region@[j]);
        if j < n {
            assert(page_entries(p2)[j] == e[j]);
            if spec_obsolete(p.version_region@[j]) {
                assert(p.key_interval_region@[j].spec_contains(k));
                let j2 = choose|j2: int| j < j2 < p.spec_len() && #[trigger] p.key_interval_region@[j2].spec_contains(k);
                assert(page_entries(p2)[j2] == e[j2]);
                assert(page_entries(p2)[j2].0 == p2.key_interval_region@[j2]);
                assert(p2.key_interval_region@[j2].spec_contains(k));
            } else {
                assert(covers(extra, e[j].0));
                let t = choose|t: int| 0 <= t < extra.len() && #[trigger] extra[t].0.spec_contains(k);
                assert(page_entries(p2)[n + t] == extra[t]);
                assert(page_entries(p2)[n + t].0 == p2.key_interval_region@[n + t]);
                assert(p2.key_interval_region@[n + t].spec_contains(k));
            }
        } else {
            assert(page_entries(p2)[j] == extra[j - n]);
        }
    }
}

impl<const FAN_OUT: usize, const NUM_RECORDS: usize, P: Copy> MVTreeSt<FAN_OUT, NUM_RECORDS, P> {
    /// The records of the leaf a writer of `key` reaches from the newest root;
    /// `None` when the writer's route ends in no leaf.
    pub open spec fn write_leaf_records(self, key: Key) -> Option<Seq<RecordPoint<P>>> {
        let h = self.root.history()[self.root.head()].payload;
        match write_route(self.blocks@, h.0 as int, key, h.1 as nat) {
            Some(b) => match self.blocks@[b].node_data {
                Node::Leaf(l) => Some(l.records()),
                Node::Index(_) => None,
            },
            None => None,
        }
    }

    /// `path` is a writer's way down for `key`: blocks one level apart, each
    /// but the last an index page whose entry for the key points to the next.
    pub open spec fn write_path(self, path: Seq<int>, key: Key) -> bool {
        &&& path.len() >= 1
        &&& forall|i: int| 0 <= i < path.len() ==> {
            &&& 0 <= #[trigger] path[i] < self.blocks@.len()
            &&& self.levels@[path[i]] + i == self.levels@[path[0]]
        }
        &&& forall|i: int| #![trigger self.blocks@[path[i]]] 0 <= i < path.len() - 1 ==> {
            &&& self.blocks@[path[i]].node_data matches Node::Index(p)
            &&& write_entry(p, key, p.spec_len()) matches Some(j)
            &&& p.pointer_region@[j] == path[i + 1]
        }
    }

    /// A writer's way down leads where the route from its last block leads.
    pub proof fn lemma_write_path_route(self, path: Seq<int>, key: Key)
        requires
            self.wf(),
            self.write_path(path, key),
        ensures
            write_route(self.blocks@, path[0], key, self.levels@[path[0]] as nat)
                == write_route(self.blocks@, path.last(), key, self.levels@[path.last()] as nat),
        decreases path.len(),
    {
        if path.len() > 1 {
            let rest = path.drop_first();
            assert(self.write_path(rest, key)) by {
                assert forall|i: int| 0 <= i < rest.len() implies {
                    &&& 0 <= #[trigger] rest[i] < self.blocks@.len()
                    &&& self.levels@[rest[i]] + i == self.levels@[rest[0]]
                } by {
                    assert(rest[i] == path[i + 1]);
                    assert(0 <= path[i + 1] < self.blocks@.len());
                    assert(self.levels@[path[i + 1]] + (i + 1) == self.levels@[path[0]]);
                    assert(self.levels@[path[1]] + 1 == self.levels@[path[0]]);
                }
                assert forall|i: int| #![trigger self.blocks@[rest[i]]] 0 <= i < rest.len() - 1 implies {
                    &&& self.blocks@[rest[i]].node_data matches Node::Index(p)
                    &&& write_entry(p, key, p.spec_len()) matches Some(j)
                    &&& p.pointer_region@[j] == rest[i + 1]
                } by {
                    assert(rest[i] == path[i + 1]);
                    assert(rest[i + 1] == path[i + 2]);
                    assert(self.blocks@[path[i + 1]] == self.blocks@[path[i + 1]]);
                }
            }
            self.lemma_write_path_route(rest, key);
            assert(self.blocks@[path[0]] == self.blocks@[path[0]]);
            assert(0 <= path[0] < self.blocks@.len());
            assert(0 <= path[1] < self.blocks@.len());
            assert(self.levels@[path[1]] + 1 == self.levels@[path[0]]);
            assert(rest[0] == path[1]);
            assert(rest.last() == path.last());
        }
    }

    /// Changing only the last block of a writer's way down, and adding blocks,
    /// keeps the way down.
    pub proof fn lemma_write_path_keep(self, t2: Self, path: Seq<int>, key: Key)
        requires
            self.write_path(path, key),
            self.blocks@.len() <= t2.blocks@.len(),
            t2.levels@.len() == t2.blocks@.len(),
            t2.levels@.take(self.blocks@.len() as int) == self.levels@,
            forall|b: int| 0 <= b < self.blocks@.len() && b != path.last() ==> t2.blocks@[b] == self.blocks@[b],
        ensures
            t2.write_path(path, key),
    {
        let n = self.blocks@.len() as int;
        assert forall|i: int| 0 <= i < path.len() implies {
            &&& 0 <= #[trigger] path[i] < t2.blocks@.len()
            &&& t2.levels@[path[i]] + i == t2.levels@[path[0]]
        } by {
            assert(0 <= path[i] < n);
            assert(0 <= path[0] < n);
            assert(t2.levels@.take(n)[path[i]] == t2.levels@[path[i]]);
            assert(t2.levels@.take(n)[path[0]] == t2.levels@[path[0]]);
        }
        assert forall|i: int| #![trigger t2.blocks@[path[i]]] 0 <= i < path.len() - 1 implies {
            &&& t2.blocks@[path[i]].node_data matches Node::Index(p)
            &&& write_entry(p, key, p.spec_len()) matches Some(j)
            &&& p.pointer_region@[j] == path[i + 1]
        } by {
            assert(0 <= path[i] < n);
            assert(self.levels@[path[i]] + i == self.levels@[path[0]]);
            assert(self.levels@[path[path.len() - 1]] + (path.len() - 1) == self.levels@[path[0]]);
            assert(path[i] != path.last());
            assert(t2.blocks@[path[i]] == self.blocks@[path[i]]);
            assert(self.blocks@[path[i]] == self.blocks@[path[i]]);
        }
    }

    /// Changing one leaf (into a leaf) keeps every writer's route.
    pub proof fn lemma_write_route_leaf_change(self, t2: Self, l: int, b: int, key: Key, fuel: nat)
        requires
            self.blocks@.len() == t2.blocks@.len(),
            0 <= l < self.blocks@.len(),
            forall|i: int| 0 <= i < self.blocks@.len() && i != l ==> t2.blocks@[i] == self.blocks@[i],
            self.blocks@[l].node_data is Leaf,
            t2.blocks@[l].node_data is Leaf,
        ensures
            write_route(t2.blocks@, b, key, fuel) == write_route(self.blocks@, b, key, fuel),
        decreases fuel,
    {
        if 0 <= b < self.blocks@.len() && b != l {
            assert(t2.blocks@[b] == self.blocks@[b]);
            match self.blocks@[b].node_data {
                Node::Leaf(_) => {},
                Node::Index(page) => {
                    if fuel > 0 {
                        if let Some(j) = write_entry(page, key, page.spec_len()) {
                            self.lemma_write_route_leaf_change(t2, l, page.pointer_region@[j] as int, key, (fuel - 1) as nat);
                        }
                    }
                },
            }
        }
    }

    /// Read your write: when a writer's route for `key` from the newest root
    /// ends in a leaf whose newest record is a live record of `key` inserted
    /// at the last version handed out, every snapshot from that version on
    /// reads its payload.
    pub proof fn lemma_read_your_write(self, key: Key, payload: P, w: Version, leaf: int)
        requires
            self.wf(),
            self.version_inv(),
            self.global_clock.0 == w + 1,
            w >= START_VERSION,
            write_route(
                self.blocks@,
                self.root.history()[self.root.head()].payload.0 as int,
                key,
                self.root.history()[self.root.head()].payload.1 as nat,
            ) == Some(leaf),
            self.blocks@[leaf].node_data matches Node::Leaf(l) && l.records().len() > 0 && l.records().last() == (
                RecordPoint { key, version: VersionInfo { insert_version: w, delete_version: None }, payload }),
        ensures
            forall|v: Version| v >= w ==> #[trigger] self.spec_point_read(key, v) == Some(payload),
    {
        assert forall|v: Version| v >= w implies #[trigger] self.spec_point_read(key, v) == Some(payload) by {
            let h = self.root.head();
            assert(self.root.history()[h].insert_version <= v);
            assert(newest_at_most(self.root.history(), h, v) == Some(h));
            let r = self.root.history()[h].payload;
            self.lemma_routes_agree(r.0 as int, key, v, r.1 as nat);
            let l = self.blocks@[leaf].node_data->Leaf_0;
            let recs = l.records();
            assert(recs == recs.drop_last().push(recs.last()));
            law_insert_visible_from_its_version(recs.drop_last(), key, w, payload, v);
        }
    }

    /// A reader of a snapshot not older than every version handed out finds
    /// for `key` what the writer's leaf of `key` holds.
    pub proof fn lemma_point_read_write_leaf(self, key: Key, v: Version, leaf: int)
        requires
            self.wf(),
            self.version_inv(),
            self.global_clock.0 <= v,
            write_route(
                self.blocks@,
                self.root.history()[self.root.head()].payload.0 as int,
                key,
                self.root.history()[self.root.head()].payload.1 as nat,
            ) == Some(leaf),
            self.blocks@[leaf].node_data is Leaf,
        ensures
            self.spec_point_read(key, v) == lookup(self.blocks@[leaf].node_data->Leaf_0.records(), key, v),
    {
        let h = self.root.head();
        assert(self.root.history()[h].insert_version <= v);
        assert(newest_at_most(self.root.history(), h, v) == Some(h));
        let r = self.root.history()[h].payload;
        self.lemma_routes_agree(r.0 as int, key, v, r.1 as nat);
    }

    /// Changing one block into a leaf or an index page keeping the version
    /// facts keeps the version facts of the tree.
    pub proof fn lemma_version_inv_one_block(self, t2: Self, b: int)
        requires
            self.version_inv(),
            self.blocks@.len() == t2.blocks@.len(),
            0 <= b < self.blocks@.len(),
            forall|i: int| 0 <= i < self.blocks@.len() && i != b ==> t2.blocks@[i] == self.blocks@[i],
            t2.blocks@[b].node_data matches Node::Index(p) ==> page_inv(p, t2.global_clock.0),
            t2.root == self.root,
            t2.global_clock == self.global_clock,
        ensures
            t2.version_inv(),
    {
        assert forall|i: int| #![trigger t2.blocks@[i]] 0 <= i < t2.blocks@.len() implies (t2.blocks@[i].node_data matches Node::Index(p)
            ==> page_inv(p, t2.global_clock.0)) by {
            if i != b {
                assert(self.blocks@[i] == t2.blocks@[i]);
            }
        }
    }

    /// Blocks added after those of `self`, whose index pages keep the version
    /// facts, keep the version facts of the tree.
    pub proof fn lemma_version_inv_append(self, t2: Self)
        requires
            self.version_inv(),
            self.blocks@.len() <= t2.blocks@.len(),
            t2.blocks@.take(self.blocks@.len() as int) == self.blocks@,
            t2.root == self.root,
            t2.global_clock == self.global_clock,
            forall|b: int| #![trigger t2.blocks@[b]] self.blocks@.len() <= b < t2.blocks@.len() ==> (t2.blocks@[b].node_data matches Node::Index(p)
                ==> page_inv(p, t2.global_clock.0)),
        ensures
            t2.version_inv(),
    {
        assert forall|b: int| #![trigger t2.blocks@[b]] 0 <= b < t2.blocks@.len() implies (t2.blocks@[b].node_data matches Node::Index(p)
            ==> page_inv(p, t2.global_clock.0)) by {
            if b < self.blocks@.len() {
                assert(t2.blocks@.take(self.blocks@.len() as int)[b] == t2.blocks@[b]);
                assert(self.blocks@[b] == t2.blocks@[b]);
            }
        }
    }

    /// A split of a block of a tree keeping its version facts adds only index
    /// pages of fresh entries.
    pub proof fn lemma_split_version_inv(self, t2: Self, b: int, fence: crate::mv_utils::interval::Interval, r: BlockSplit)
        requires
            self.wf(),
            self.version_inv(),
            0 <= b < self.blocks@.len(),
            self.blocks@.len() <= t2.blocks@.len(),
            t2.blocks@.take(self.blocks@.len() as int) == self.blocks@,
            t2.root == self.root,
            t2.global_clock == self.global_clock,
            split_content(self.blocks@[b], fence, t2.blocks@, r),
            match r {
                BlockSplit::ByKey(_, x, _, y) => x == self.blocks@.len() && y == self.blocks@.len() + 1
                    && t2.blocks@.len() == self.blocks@.len() + 2,
                BlockSplit::ByVersion(x) => x == self.blocks@.len() && t2.blocks@.len() == self.blocks@.len() + 1,
            },
        ensures
            t2.version_inv(),
    {
        let clock = self.global_clock.0;
        assert(self.blocks@[b] == self.blocks@[b]);
        assert(self.block_ok(b));
        if let Node::Index(p) = self.blocks@[b].node_data {
            lemma_active_of_fresh(p, clock);
            match r {
                BlockSplit::ByKey(_, x, _, y) => {
                    let px = t2.blocks@[x as int].node_data->Index_0;
                    let py = t2.blocks@[y as int].node_data->Index_0;
                    lemma_fresh_from_multiset(active_of(p, p.spec_len()), page_entries(px), page_entries(py), clock);
                    lemma_fresh_page_inv(px, clock);
                    lemma_fresh_page_inv(py, clock);
                },
                BlockSplit::ByVersion(x) => {
                    let px = t2.blocks@[x as int].node_data->Index_0;
                    lemma_fresh_page_inv(px, clock);
                },
            }
        }
        self.lemma_version_inv_append(t2);
    }

    /// A merge of two children in a tree keeping its version facts adds only
    /// index pages of fresh entries.
    pub proof fn lemma_merge_version_inv(self, t2: Self, s: int, c: int, sf: crate::mv_utils::interval::Interval,
        cf: crate::mv_utils::interval::Interval, r: MergeResult)
        requires
            self.wf(),
            self.version_inv(),
            0 <= s < self.blocks@.len(),
            0 <= c < self.blocks@.len(),
            self.blocks@.len() <= t2.blocks@.len(),
            t2.blocks@.take(self.blocks@.len() as int) == self.blocks@,
            t2.root == self.root,
            t2.global_clock == self.global_clock,
            merge_content(self.blocks@[s], self.blocks@[c], sf, cf, t2.blocks@, r),
            match r {
                MergeResult::Merged(_, _, x) => x == self.blocks@.len() && t2.blocks@.len() == self.blocks@.len() + 1,
                MergeResult::KeySplit(_, BlockSplit::ByKey(_, x, _, y)) => x == self.blocks@.len() && y == self.blocks@.len() + 1
                    && t2.blocks@.len() == self.blocks@.len() + 2,
                _ => t2.blocks@.len() == self.blocks@.len(),
            },
        ensures
            t2.version_inv(),
    {
        let clock = self.global_clock.0;
        assert(self.blocks@[s] == self.blocks@[s]);
        assert(self.blocks@[c] == self.blocks@[c]);
        assert(self.block_ok(s));
        assert(self.block_ok(c));
        if let (Node::Index(ps), Node::Index(pc)) = (self.blocks@[s].node_data, self.blocks@[c].node_data) {
            lemma_active_of_fresh(ps, clock);
            lemma_active_of_fresh(pc, clock);
            let both = active_of(ps, ps.spec_len()) + active_of(pc, pc.spec_len());
            lemma_fresh_concat(active_of(ps, ps.spec_len()), active_of(pc, pc.spec_len()), clock);
            match r {
                MergeResult::Merged(_, _, x) => {
                    let px = t2.blocks@[x as int].node_data->Index_0;
                    assert(page_entries(px) + Seq::<Entry>::empty() =~= page_entries(px));
                    lemma_fresh_from_multiset(both, page_entries(px), Seq::empty(), clock);
                    lemma_fresh_page_inv(px, clock);
                },
                MergeResult::KeySplit(_, BlockSplit::ByKey(_, x, _, y)) => {
                    let px = t2.blocks@[x as int].node_data->Index_0;
                    let py = t2.blocks@[y as int].node_data->Index_0;
                    lemma_fresh_from_multiset(both, page_entries(px), page_entries(py), clock);
                    lemma_fresh_page_inv(px, clock);
                    lemma_fresh_page_inv(py, clock);
                },
                _ => {},
            }
        }
        self.lemma_version_inv_append(t2);
    }

    /// The version facts the tree keeps: index pages keep `page_inv` against
    /// the clock, no root is newer than the clock, and the newest root is
    /// older than the clock once any version was handed out.
    pub open spec fn version_inv(self) -> bool {
        &&& forall|b: int| #![trigger self.blocks@[b]]
            0 <= b < self.blocks@.len() ==> (self.blocks@[b].node_data matches Node::Index(p)
                ==> page_inv(p, self.global_clock.0))
        &&& forall|i: int| 0 <= i < self.root.history().len() ==> (#[trigger] self.root.history()[i]).insert_version <= self.global_clock.0
        &&& (self.root.history()[self.root.head()].insert_version < self.global_clock.0 || self.global_clock.0 == START_VERSION)
        &&& self.global_clock.0 >= START_VERSION
    }

    /// In a tree keeping its version facts, a reader of a snapshot not older
    /// than every version handed out walks the route a writer walks.
    pub proof fn lemma_routes_agree(self, b: int, key: Key, v: Version, fuel: nat)
        requires
            self.wf(),
            self.version_inv(),
            self.global_clock.0 <= v + 1,
        ensures
            read_route(self.blocks@, b, key, v, fuel) == write_route(self.blocks@, b, key, fuel),
        decreases fuel,
    {
        if 0 <= b < self.blocks@.len() {
            assert(self.block_ok(b));
            match self.blocks@[b].node_data {
                Node::Leaf(_) => {},
                Node::Index(page) => {
                    if fuel > 0 {
                        lemma_read_is_write_entry(page, key, v, self.global_clock.0);
                        match write_entry(page, key, page.spec_len()) {
                            None => {},
                            Some(j) => {
                                self.lemma_routes_agree(page.pointer_region@[j] as int, key, v, (fuel - 1) as nat);
                            },
                        }
                    }
                },
            }
        }
    }
}

} // verus!
