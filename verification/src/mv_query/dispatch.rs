use vstd::prelude::*;
use crate::mv_block::block::Block;
use crate::mv_crud_model::crud_operation::CRUDOperation;
use crate::mv_crud_model::crud_operation_result::{CRUDOperationInnerReason, CRUDOperationResult};
use crate::mv_page_model::leaf_page::last_index_of_key;
use crate::mv_page_model::node::Node;
use crate::mv_page_model::record_history::{close_at, lemma_last_index_close_at};
use crate::mv_page_model::BlockID;
use crate::mv_record_model::record_point::{Key, RecordPoint};
use crate::mv_record_model::version_info::{Version, VersionInfo};
use crate::mv_tree::mvtree::MVTreeSt;
use crate::mv_sync::version_handle::START_VERSION;
use crate::mv_tree::snapshot::lemma_leaf_grows_reads_same;
use crate::mv_tree::visibility::write_route;
use crate::mv_query::olc_query::lemma_descent_leaf;
use crate::mv_query::rand_query::{newest_of_key, random_in, RAND_ATTEMPTS_MAX};
use crate::mv_query::time_matcher::{TimeMatcher, OBSOLETE_VERSION_MARK};
use crate::mv_tree::smo::live_records;
use crate::mv_page_model::Attempts;
use crate::mv_utils::interval::Interval;

verus! {

/// A change to one leaf: what a writer does once it has reached it.
#[derive(Clone, Copy)]
pub enum LeafWrite<P> {
    Insert(Key, P),
    Update(Key, P),
    Delete(Key),
}

/// The records of a leaf after `op` at version `w`, and whether it took
/// effect: an insert appends a live record; an update closes the newest
/// record of the key and appends a live one; a delete closes the newest record
/// of the key. Update and delete change nothing when the key has no record,
/// or its newest record is already closed.
pub open spec fn spec_leaf_write<P>(recs: Seq<RecordPoint<P>>, op: LeafWrite<P>, w: Version) -> (Seq<RecordPoint<P>>, Result<(), CRUDOperationInnerReason>) {
    match op {
        LeafWrite::Insert(k, p) => (
            recs.push(RecordPoint { key: k, version: VersionInfo { insert_version: w, delete_version: None }, payload: p }),
            Ok(()),
        ),
        LeafWrite::Update(k, p) => match last_index_of_key(recs, k) {
            None => (recs, Err(CRUDOperationInnerReason::KeyDoesNotExist)),
            Some(i) => if recs[i].version.delete_version is None {
                (
                    close_at(recs, i, w).push(
                        RecordPoint { key: k, version: VersionInfo { insert_version: w, delete_version: None }, payload: p },
                    ),
                    Ok(()),
                )
            } else {
                (recs, Err(CRUDOperationInnerReason::KeyAlreadyDeleted))
            },
        },
        LeafWrite::Delete(k) => match last_index_of_key(recs, k) {
            None => (recs, Err(CRUDOperationInnerReason::KeyDoesNotExist)),
            Some(i) => if recs[i].version.delete_version is None {
                (close_at(recs, i, w), Ok(()))
            } else {
                (recs, Err(CRUDOperationInnerReason::KeyAlreadyDeleted))
            },
        },
    }
}

/// The key a leaf write is about.
pub open spec fn leaf_write_key<P>(op: LeafWrite<P>) -> Key {
    match op {
        LeafWrite::Insert(k, _) => k,
        LeafWrite::Update(k, _) => k,
        LeafWrite::Delete(k) => k,
    }
}

/// What the records `recs` of the written key's leaf show after a write `op`
/// answered `r`: after an insert or update the new live record is the newest
/// record; after a delete the newest record of the key is closed at the
/// delete's version; a refused update or delete names why the newest record
/// of the key could not be changed (no record, or already closed).
pub open spec fn write_outcome<P>(recs: Option<Seq<RecordPoint<P>>>, op: LeafWrite<P>, r: CRUDOperationResult<P>) -> bool {
    let k = leaf_write_key(op);
    match r {
        CRUDOperationResult::Inserted(w) => op matches LeafWrite::Insert(_, p) && recs matches Some(s) && s.len() > 0
            && s.last() == (RecordPoint { key: k, version: VersionInfo { insert_version: w, delete_version: None }, payload: p }),
        CRUDOperationResult::Updated(w) => op matches LeafWrite::Update(_, p) && recs matches Some(s) && s.len() > 0
            && s.last() == (RecordPoint { key: k, version: VersionInfo { insert_version: w, delete_version: None }, payload: p }),
        CRUDOperationResult::Deleted(w) => op is Delete && (recs matches Some(s) && (last_index_of_key(s, k) matches Some(i)
            && s[i].version.delete_version == Some(w))),
        CRUDOperationResult::ZeroAffected(reason) => !(op is Insert) && (recs matches Some(s) && match last_index_of_key(s, k) {
            None => reason == CRUDOperationInnerReason::KeyDoesNotExist,
            Some(i) => s[i].version.delete_version is Some && reason == CRUDOperationInnerReason::KeyAlreadyDeleted,
        }),
        _ => true,
    }
}

/// The newest record of `key` among `recs` is open: an update or a delete
/// of the key takes effect there.
pub open spec fn newest_live<P>(recs: Option<Seq<RecordPoint<P>>>, key: Key) -> bool {
    recs matches Some(s) && (last_index_of_key(s, key) matches Some(i) && s[i].version.delete_version is None)
}

/// What a write does when the newest root is a writable leaf: the leaf's
/// records become those of the leaf write at the clock's version, the clock
/// moves on by one and nothing else changes.
pub open spec fn leaf_root_write_effect<const FAN_OUT: usize, const NUM_RECORDS: usize, P: Copy>(
    before: MVTreeSt<FAN_OUT, NUM_RECORDS, P>,
    after: MVTreeSt<FAN_OUT, NUM_RECORDS, P>,
    op: LeafWrite<P>,
) -> bool {
    let k = leaf_write_key(op);
    &&& after.write_leaf_records(k) == Some(
        spec_leaf_write(before.write_leaf_records(k)->Some_0, op, before.global_clock.0).0,
    )
    &&& after.root == before.root
    &&& after.levels == before.levels
    &&& after.blocks@.len() == before.blocks@.len()
    &&& forall|b: int|
        0 <= b < before.blocks@.len() && b != before.head_root_block() ==> after.blocks@[b] == before.blocks@[b]
    &&& after.blocks@[before.head_root_block()].node_data is Leaf
    &&& after.global_clock.0 == before.global_clock.0 + 1
}

/// How a leaf write moves the live and dead counts of its leaf: an insert
/// adds a live record, an update closes one record and adds a live one, a
/// delete turns a live record into a dead one; a refused write moves nothing.
pub open spec fn leaf_count_delta<P>(op: LeafWrite<P>, res: Result<(), CRUDOperationInnerReason>) -> (int, int) {
    if res is Err {
        (0, 0)
    } else {
        match op {
            LeafWrite::Insert(..) => (1, 0),
            LeafWrite::Update(..) => (0, 1),
            LeafWrite::Delete(..) => (-1, 1),
        }
    }
}

/// What a write does in a tree of any height when it needs no
/// reorganisation: the leaf the writer reaches for the key gets the records
/// of the leaf write at the clock's version, its live and dead counts move
/// as the write says, the clock moves on by one and nothing else changes.
pub open spec fn key_write_effect<const FAN_OUT: usize, const NUM_RECORDS: usize, P: Copy>(
    before: MVTreeSt<FAN_OUT, NUM_RECORDS, P>,
    after: MVTreeSt<FAN_OUT, NUM_RECORDS, P>,
    op: LeafWrite<P>,
) -> bool {
    let k = leaf_write_key(op);
    let h = before.root.history()[before.root.head()].payload;
    let leaf = write_route(before.blocks@, h.0 as int, k, h.1 as nat)->Some_0;
    let l = before.blocks@[leaf].node_data->Leaf_0;
    let (recs, res) = spec_leaf_write(l.records(), op, before.global_clock.0);
    &&& write_route(before.blocks@, h.0 as int, k, h.1 as nat) is Some
    &&& before.blocks@[leaf].node_data is Leaf
    &&& after.blocks@[leaf].node_data matches Node::Leaf(l2)
    &&& l2.records() == recs
    &&& l2.spec_active() == l.spec_active() + leaf_count_delta(op, res).0
    &&& l2.spec_dead() == l.spec_dead() + leaf_count_delta(op, res).1
    &&& after.write_leaf_records(k) == Some(recs)
    &&& after.root == before.root
    &&& after.levels == before.levels
    &&& after.blocks@.len() == before.blocks@.len()
    &&& forall|b: int| 0 <= b < before.blocks@.len() && b != leaf ==> after.blocks@[b] == before.blocks@[b]
    &&& after.global_clock.0 == before.global_clock.0 + 1
}

/// A random write of key `k` at version `w` went where a writer of `k`
/// goes: that leaf's newest record is the live record of `k` written at `w`,
/// and every snapshot from `w` on reads its payload for `k`.
pub open spec fn rand_key_written<const FAN_OUT: usize, const NUM_RECORDS: usize, P: Copy>(
    t: MVTreeSt<FAN_OUT, NUM_RECORDS, P>,
    k: Key,
    w: Version,
) -> bool {
    let h = t.root.history()[t.root.head()].payload;
    &&& write_route(t.blocks@, h.0 as int, k, h.1 as nat) matches Some(b)
    &&& leaf_ends_with(t.blocks@[b], k, w)
    &&& forall|v: Version| v >= w ==> #[trigger] t.spec_point_read(k, v) == Some(
        t.blocks@[b].node_data->Leaf_0.records().last().payload,
    )
}

/// Key `k` lies in the fence under which a writer of `k` reaches its leaf.
pub open spec fn key_in_leaf_fence<const FAN_OUT: usize, const NUM_RECORDS: usize, P: Copy>(
    t: MVTreeSt<FAN_OUT, NUM_RECORDS, P>,
    k: Key,
) -> bool {
    let h = t.root.history()[t.root.head()].payload;
    &&& write_route(t.blocks@, h.0 as int, k, h.1 as nat) matches Some(b)
    &&& exists|f: Interval| #[trigger] t.reached_under(f, b) && f.lower <= k <= f.upper
}

/// A random delete of key `k` at version `w` went where a writer of `k`
/// goes: in that leaf the newest record of `k` was closed at `w`.
pub open spec fn rand_key_closed<const FAN_OUT: usize, const NUM_RECORDS: usize, P: Copy>(
    t: MVTreeSt<FAN_OUT, NUM_RECORDS, P>,
    k: Key,
    w: Version,
) -> bool {
    let h = t.root.history()[t.root.head()].payload;
    &&& write_route(t.blocks@, h.0 as int, k, h.1 as nat) matches Some(b)
    &&& leaf_closed(t.blocks@[b], k, w)
}

/// The reader id under which the tree registers the snapshot of a read it
/// answers: the tree's reads run on the thread that calls it.
pub const TREE_READER: usize = 0;

/// A read of snapshot `v` was registered with the tracker, if one is set,
/// and released again; blocks, roots and clock are as they were.
pub open spec fn read_traced<const FAN_OUT: usize, const NUM_RECORDS: usize, P: Copy>(
    before: MVTreeSt<FAN_OUT, NUM_RECORDS, P>,
    after: MVTreeSt<FAN_OUT, NUM_RECORDS, P>,
    v: Version,
) -> bool {
    &&& after.same_but_gc(before)
    &&& before.block_manager.readers_moved(
        after.block_manager,
        |s: Set<(u64, usize)>| s.insert((v, TREE_READER)).remove((v, TREE_READER)),
    )
}

/// `r` answers an update by a rewrite in place: the version it names is the
/// one readers of `t` see, and no commit version was taken for it.
pub open spec fn answered_in_place<const FAN_OUT: usize, const NUM_RECORDS: usize, P: Copy>(
    r: CRUDOperationResult<P>,
    t: MVTreeSt<FAN_OUT, NUM_RECORDS, P>,
) -> bool {
    ||| r matches CRUDOperationResult::Updated(w) && t.global_clock.0 == w
    ||| r matches CRUDOperationResult::UpdatedRand(_, w) && t.global_clock.0 == w
}

/// In `t`, the newest record of `key` in the writer's leaf of `key` is live,
/// carries `payload` and began after every snapshot an active reader holds;
/// every snapshot from the clock on that it is visible to reads `payload`.
pub open spec fn updated_in_place<const FAN_OUT: usize, const NUM_RECORDS: usize, P: Copy>(
    t: MVTreeSt<FAN_OUT, NUM_RECORDS, P>,
    key: Key,
    payload: P,
) -> bool {
    let h = t.root.history()[t.root.head()].payload;
    &&& write_route(t.blocks@, h.0 as int, key, h.1 as nat) matches Some(b)
    &&& t.blocks@[b].node_data matches Node::Leaf(l)
    &&& last_index_of_key(l.records(), key) matches Some(i)
    &&& l.records()[i].version.delete_version is None
    &&& l.records()[i].payload == payload
    &&& t.block_manager.tracker matches Some(tr)
    &&& forall|x: (u64, usize)| #[trigger] tr.live_tx.readers().contains(x) ==> x.0 < l.records()[i].version.insert_version
    &&& forall|v: Version| v >= t.global_clock.0 && v >= l.records()[i].version.insert_version
        ==> #[trigger] t.spec_point_read(key, v) == Some(payload)
}

/// For some payload, `updated_in_place` holds of `t` and `key`.
pub open spec fn rewritten_in_place<const FAN_OUT: usize, const NUM_RECORDS: usize, P: Copy>(
    t: MVTreeSt<FAN_OUT, NUM_RECORDS, P>,
    key: Key,
) -> bool {
    exists|p: P| #[trigger] updated_in_place(t, key, p)
}

/// Rewriting the newest record of a key keeps it the newest.
proof fn lemma_last_index_update<P>(recs: Seq<RecordPoint<P>>, key: Key, i: int, r: RecordPoint<P>)
    requires
        last_index_of_key(recs, key) == Some(i),
        r.key == key,
    ensures
        last_index_of_key(recs.update(i, r), key) == Some(i),
    decreases recs.len(),
{
    crate::mv_page_model::leaf_page::lemma_last_index_of_key(recs, key);
    if i < recs.len() - 1 {
        assert(recs.update(i, r).drop_last() =~= recs.drop_last().update(i, r));
        lemma_last_index_update(recs.drop_last(), key, i, r);
    }
}

/// Why a write `op` is answered with `Error` in `t`: the writer of its key
/// is blocked (`write_blocked`), or, for an insert or an update, the leaf it
/// reaches has no free slot.
pub open spec fn write_refused<const FAN_OUT: usize, const NUM_RECORDS: usize, P: Copy>(
    t: MVTreeSt<FAN_OUT, NUM_RECORDS, P>,
    op: LeafWrite<P>,
) -> bool {
    let k = leaf_write_key(op);
    let h = t.root.history()[t.root.head()].payload;
    ||| t.write_blocked(k)
    ||| !(op is Delete) && (write_route(t.blocks@, h.0 as int, k, h.1 as nat) matches Some(b) && (
    t.blocks@[b].node_data matches Node::Leaf(l) && l.committed_len() >= NUM_RECORDS))
}

/// `blk` is a leaf ending with a live record of `key` written at `w`.
pub open spec fn leaf_ends_with<const FAN_OUT: usize, const NUM_RECORDS: usize, P: Copy>(
    blk: Block<FAN_OUT, NUM_RECORDS, P>,
    key: Key,
    w: Version,
) -> bool {
    blk.node_data matches Node::Leaf(l) && l.records().len() > 0 && l.records().last().key == key
        && l.records().last().version == (VersionInfo { insert_version: w, delete_version: None })
}

/// `blk` is a leaf whose newest record of `key` was closed at `w`.
pub open spec fn leaf_closed<const FAN_OUT: usize, const NUM_RECORDS: usize, P: Copy>(
    blk: Block<FAN_OUT, NUM_RECORDS, P>,
    key: Key,
    w: Version,
) -> bool {
    blk.node_data matches Node::Leaf(l) && (last_index_of_key(l.records(), key) matches Some(i)
        && l.records()[i].version.delete_version == Some(w))
}

/// Some leaf of `blocks` ends with a live record of `key` written at `w`.
pub open spec fn some_leaf_ends_with<const FAN_OUT: usize, const NUM_RECORDS: usize, P: Copy>(
    blocks: Seq<Block<FAN_OUT, NUM_RECORDS, P>>,
    key: Key,
    w: Version,
) -> bool {
    exists|b: int| 0 <= b < blocks.len() && leaf_ends_with(#[trigger] blocks[b], key, w)
}

/// In some leaf of `blocks` the newest record of `key` was closed at `w`.
pub open spec fn some_leaf_closed<const FAN_OUT: usize, const NUM_RECORDS: usize, P: Copy>(
    blocks: Seq<Block<FAN_OUT, NUM_RECORDS, P>>,
    key: Key,
    w: Version,
) -> bool {
    exists|b: int| 0 <= b < blocks.len() && leaf_closed(#[trigger] blocks[b], key, w)
}

impl<const FAN_OUT: usize, const NUM_RECORDS: usize, P: Copy + Default> MVTreeSt<FAN_OUT, NUM_RECORDS, P> {
    /// Applies `op` at version `w` to leaf block `b`.
    pub fn apply_leaf_write(&mut self, b: BlockID, op: LeafWrite<P>, w: Version) -> (r: Result<(), CRUDOperationInnerReason>)
        requires
            old(self).wf(),
            b < old(self).blocks@.len(),
            old(self).blocks@[b as int].node_data matches Node::Leaf(l)
                && (op is Delete || l.committed_len() < NUM_RECORDS),
        ensures
            final(self).gc_mode() == old(self).gc_mode(),
            final(self).wf(),
            final(self).root == old(self).root,
            final(self).global_clock == old(self).global_clock,
            final(self).levels == old(self).levels,
            final(self).block_manager == old(self).block_manager,
            final(self).min_key == old(self).min_key,
            final(self).max_key == old(self).max_key,
            final(self).blocks@.len() == old(self).blocks@.len(),
            forall|i: int| 0 <= i < old(self).blocks@.len() && i != b ==> final(self).blocks@[i] == old(self).blocks@[i],
            ({
                let l = old(self).blocks@[b as int].node_data->Leaf_0;
                &&& final(self).blocks@[b as int].node_data matches Node::Leaf(l2)
                &&& (l2.records(), r) == spec_leaf_write(l.records(), op, w)
                &&& l2.spec_active() == l.spec_active() + leaf_count_delta(op, r).0
                &&& l2.spec_dead() == l.spec_dead() + leaf_count_delta(op, r).1
            }),
            old(self).evolves_to(*final(self), w),
            old(self).version_inv() ==> final(self).version_inv(),
    {
        let ghost old_self = *self;
        proof {
            assert(old_self.block_ok(b as int));
        }
        let _n = self.blocks.len();
        let mut taken = Block { node_data: Node::<FAN_OUT, NUM_RECORDS, P>::new_internal() };
        std::mem::swap(&mut taken, &mut self.blocks[b as usize]);
        proof {
            assert(taken == old_self.blocks@[b as int]);
        }
        let Block { node_data } = taken;
        let (new_block, r) = match node_data {
            Node::Leaf(mut l) => {
                proof {
                    assert(l == old_self.blocks@[b as int].node_data->Leaf_0);
                    crate::mv_page_model::leaf_page::lemma_last_index_of_key(l.records(), 0);
                }
                let ghost ol = l;
                let r = match op {
                    LeafWrite::Insert(k, p) => {
                        l.insert_versioned(k, w, p);
                        Ok(())
                    },
                    LeafWrite::Update(k, p) => match l.update_versioned(k, w, p) {
                        Ok(()) => Ok(()),
                        Err(e) => Err(e),
                    },
                    LeafWrite::Delete(k) => match l.delete_versioned(k, w) {
                        Ok(()) => Ok(()),
                        Err(e) => Err(e),
                    },
                };
                proof {
                    assert((l.records(), r) == spec_leaf_write(ol.records(), op, w));
                }
                (Block { node_data: Node::Leaf(l) }, r)
            },
            Node::Index(page) => {
                proof {
                    assert(false);
                }
                (Block { node_data: Node::Index(page) }, Ok(()))
            },
        };
        let ghost nb = new_block;
        self.blocks.set(b as usize, new_block);
        proof {
            assert(self.blocks@[b as int] == nb);
            assert forall|i: int| 0 <= i < self.blocks@.len() implies self.block_ok(i) by {
                if i != b {
                    assert(old_self.block_ok(i));
                }
            }
            let ob = old_self.blocks@[b as int];
            let recs = ob.node_data->Leaf_0.records();
            crate::mv_page_model::leaf_page::lemma_last_index_of_key(recs, match op {
                LeafWrite::Insert(k, _) => k,
                LeafWrite::Update(k, _) => k,
                LeafWrite::Delete(k) => k,
            });
            match op {
                LeafWrite::Insert(k, p) => {
                    lemma_leaf_grows_reads_same(ob, nb, None, Some(
                        RecordPoint { key: k, version: VersionInfo { insert_version: w, delete_version: None }, payload: p },
                    ), w);
                },
                LeafWrite::Update(k, p) => {
                    match last_index_of_key(recs, k) {
                        Some(i) => if recs[i].version.delete_version is None {
                            lemma_leaf_grows_reads_same(ob, nb, Some(i), Some(
                                RecordPoint { key: k, version: VersionInfo { insert_version: w, delete_version: None }, payload: p },
                            ), w);
                        } else {
                            lemma_leaf_grows_reads_same(ob, nb, None, None, w);
                        },
                        None => {
                            lemma_leaf_grows_reads_same(ob, nb, None, None, w);
                        },
                    }
                },
                LeafWrite::Delete(k) => {
                    match last_index_of_key(recs, k) {
                        Some(i) => if recs[i].version.delete_version is None {
                            lemma_leaf_grows_reads_same(ob, nb, Some(i), None, w);
                        } else {
                            lemma_leaf_grows_reads_same(ob, nb, None, None, w);
                        },
                        None => {
                            lemma_leaf_grows_reads_same(ob, nb, None, None, w);
                        },
                    }
                },
            }
            old_self.lemma_evolves_one_block(*self, b as int, w);
            if old_self.version_inv() {
                old_self.lemma_version_inv_one_block(*self, b as int);
            }
        }
        r
    }

    /// With garbage collection on, an update may rewrite the newest record
    /// of its key in place: the writer's leaf of `key` is reached, and when
    /// that record is newer than every snapshot an active reader holds (or no
    /// reader is active), it becomes live again with `payload`, and the version
    /// readers now see is returned. `None`, and no record changed, when no
    /// tracker is set, no leaf is reached, the key has no record there or a
    /// reader may still see the record.
    pub fn try_update_in_place(&mut self, key: Key, payload: P) -> (r: Option<Version>)
        requires
            old(self).wf(),
            old(self).version_inv(),
        ensures
            final(self).gc_mode() == old(self).gc_mode(),
            final(self).wf(),
            final(self).version_inv(),
            final(self).global_clock.0 >= old(self).global_clock.0,
            r is None ==> old(self).evolves_to(*final(self), old(self).global_clock.0),
            r is None && old(self).key_writable(key) ==> *final(self) == *old(self),
            r matches Some(v) ==> v == final(self).global_clock.0 && updated_in_place(*final(self), key, payload),
    {
        let leaf = match self.traversal_write(key) {
            Some(b) => b,
            None => {
                return None;
            },
        };
        if self.rewrite_if_unseen(leaf, key, payload) {
            Some(self.current_version())
        } else {
            None
        }
    }

    /// In the writer's leaf `leaf` of `key`, rewrites the newest record of
    /// `key` in place (live again, with `payload`) when a tracker is set and
    /// that record is newer than every snapshot an active reader holds; true
    /// when it did.
    #[verifier::spinoff_prover]
    fn rewrite_if_unseen(&mut self, leaf: BlockID, key: Key, payload: P) -> (r: bool)
        requires
            old(self).wf(),
            old(self).version_inv(),
            write_route(
                old(self).blocks@,
                old(self).root.history()[old(self).root.head()].payload.0 as int,
                key,
                old(self).root.history()[old(self).root.head()].payload.1 as nat,
            ) == Some(leaf as int),
        ensures
            final(self).wf(),
            final(self).version_inv(),
            final(self).global_clock == old(self).global_clock,
            final(self).block_manager == old(self).block_manager,
            !r ==> *final(self) == *old(self),
            r ==> updated_in_place(*final(self), key, payload),
    {
        let newest = match &self.block_manager.tracker {
            Some(t) => t.newest_live_si(),
            None => {
                return false;
            },
        };
        let _n = self.blocks.len();
        proof {
            assert(self.root.history()[self.root.head()] == self.root.history()[self.root.head()]);
            crate::mv_query::olc_query::lemma_route_in_range(self.blocks@, self.root.history()[self.root.head()].payload.0 as int, key, self.root.history()[self.root.head()].payload.1 as nat);
            assert(self.block_ok(leaf as int));
        }
        let i = match &self.blocks[leaf as usize].node_data {
            Node::Leaf(l) => match newest_of_key(l, key) {
                Some(i) => {
                    let iv = l.slots[i].version.insert_version;
                    match newest {
                        Some(si) => if iv <= si {
                            return false;
                        },
                        None => {},
                    }
                    proof {
                        crate::mv_page_model::leaf_page::lemma_last_index_of_key(l.records(), key);
                        assert(l.records()[i as int] == l.slots@[i as int]);
                    }
                    i
                },
                None => {
                    return false;
                },
            },
            Node::Index(_) => {
                return false;
            },
        };
        let ghost t1 = *self;
        let mut taken = Block { node_data: Node::<FAN_OUT, NUM_RECORDS, P>::new_internal() };
        std::mem::swap(&mut taken, &mut self.blocks[leaf as usize]);
        proof {
            assert(taken == t1.blocks@[leaf as int]);
        }
        let Block { node_data } = taken;
        let nb = match node_data {
            Node::Leaf(mut l) => {
                l.rewrite_in_place(i, payload);
                Block { node_data: Node::Leaf(l) }
            },
            Node::Index(page) => {
                proof {
                    assert(false);
                }
                Block { node_data: Node::Index(page) }
            },
        };
        let ghost gb = nb;
        self.blocks.set(leaf as usize, nb);
        proof {
            assert(self.blocks@[leaf as int] == gb);
            assert forall|x: int| 0 <= x < self.blocks@.len() implies self.block_ok(x) by {
                if x != leaf {
                    assert(t1.block_ok(x));
                }
            }
            t1.lemma_version_inv_one_block(*self, leaf as int);
            let h = self.root.history()[self.root.head()].payload;
            t1.lemma_write_route_leaf_change(*self, leaf as int, h.0 as int, key, h.1 as nat);
            let ol = t1.blocks@[leaf as int].node_data->Leaf_0;
            let nl = self.blocks@[leaf as int].node_data->Leaf_0;
            let rec = nl.records()[i as int];
            lemma_last_index_update(ol.records(), key, i as int, rec);
            assert(nl.records() == ol.records().update(i as int, rec));
            assert forall|v: Version| v >= self.global_clock.0 && v >= rec.version.insert_version
                implies #[trigger] self.spec_point_read(key, v) == Some(payload) by {
                self.lemma_point_read_write_leaf(key, v, leaf as int);
                crate::mv_page_model::record_history::lemma_newest_live_visible(nl.records(), key, i as int, v);
            }
            let tr = self.block_manager.tracker->Some_0;
            assert forall|x: (u64, usize)| #[trigger] tr.live_tx.readers().contains(x) implies x.0
                < rec.version.insert_version by {
                if let Some(si) = newest {
                    assert(crate::mv_gc::query_tracer::newest_reader(tr.live_tx.readers(), si));
                } else {
                    assert(tr.live_tx.readers() == Set::<(u64, usize)>::empty());
                    assert(!Set::<(u64, usize)>::empty().contains(x));
                }
            }
            assert(updated_in_place(*self, key, payload));
        }
        true
    }

    /// Answers request `crud`. Writes (insert, update, delete) reach their leaf
    /// with `traversal_write` and take the next commit version after it; with
    /// garbage collection on and updates in place, an update first tries to
    /// rewrite the newest record of its key in place. Reads of a snapshot
    /// (point, range) start from the root valid at it and are registered with
    /// the tracker while they run. Requests this tree does not serve, and
    /// writes that cannot reach a leaf with room or take a version, are
    /// answered with `Error`.
    #[verifier::spinoff_prover]
    pub fn dispatch_crud(&mut self, crud: CRUDOperation<P>) -> (r: CRUDOperationResult<P>)
        requires
            old(self).wf(),
            old(self).version_inv(),
        ensures
            final(self).gc_mode() == old(self).gc_mode(),
            final(self).wf(),
            final(self).version_inv(),
            final(self).global_clock.0 >= old(self).global_clock.0,
            !(crud is Insert || crud is Update || crud is Delete || crud is InsertRand || crud is UpdateRand
                || crud is DeleteRand || crud is Point || crud is Range || crud is RangeIter) ==> *final(self) == *old(
                self),
            crud matches CRUDOperation::Point(_, v) ==> if v >= START_VERSION {
                read_traced(*old(self), *final(self), v)
            } else {
                *final(self) == *old(self)
            },
            crud matches CRUDOperation::Range(_, v) ==> if v >= START_VERSION {
                read_traced(*old(self), *final(self), v)
            } else {
                *final(self) == *old(self)
            },
            crud matches CRUDOperation::RangeIter(_, v) ==> if v >= START_VERSION {
                read_traced(*old(self), *final(self), v)
            } else {
                *final(self) == *old(self)
            },
            !answered_in_place(r, *final(self)) ==> old(self).reads_agree_below(*final(self), old(self).global_clock.0),
            old(self).leaf_root_writable() && (crud is Insert || crud is Update || crud is Delete) ==> !(r is Error),
            old(self).leaf_root_writable() ==> (crud matches CRUDOperation::Insert(k, p) ==> leaf_root_write_effect(
                *old(self),
                *final(self),
                LeafWrite::Insert(k, p),
            )),
            old(self).leaf_root_writable() && !answered_in_place(r, *final(self)) ==> (crud matches CRUDOperation::Update(
                k,
                p,
            ) ==> leaf_root_write_effect(*old(self), *final(self), LeafWrite::Update(k, p))),
            old(self).leaf_root_writable() ==> (crud matches CRUDOperation::Delete(k) ==> leaf_root_write_effect(
                *old(self),
                *final(self),
                LeafWrite::Delete(k),
            )),
            old(self).leaf_root_writable() && (crud is Update || crud is Delete) && r is ZeroAffected
                && old(self).global_clock.0 + 1 < OBSOLETE_VERSION_MARK - 1 ==> final(self).leaf_root_writable(),
            old(self).leaf_root_writable() && !answered_in_place(r, *final(self)) ==> (crud matches CRUDOperation::Update(
                k,
                _,
            ) ==> (r is Updated <==> newest_live(old(self).write_leaf_records(k), k))),
            old(self).leaf_root_writable() ==> (crud matches CRUDOperation::Delete(k) ==> (r is Deleted
                <==> newest_live(old(self).write_leaf_records(k), k))),
            crud matches CRUDOperation::Insert(k, p) ==> (old(self).key_writable(k) ==> !(r is Error)
                && key_write_effect(*old(self), *final(self), LeafWrite::Insert(k, p))),
            crud matches CRUDOperation::Update(k, p) ==> (old(self).key_writable(k) && !answered_in_place(r, *final(self))
                ==> !(r is Error)
                && key_write_effect(*old(self), *final(self), LeafWrite::Update(k, p))
                && (r is Updated <==> newest_live(old(self).write_leaf_records(k), k))),
            crud matches CRUDOperation::Delete(k) ==> (old(self).key_writable(k) ==> !(r is Error)
                && key_write_effect(*old(self), *final(self), LeafWrite::Delete(k))
                && (r is Deleted <==> newest_live(old(self).write_leaf_records(k), k))),
            crud matches CRUDOperation::Insert(k, p) ==> (r is Error ==> write_refused(*final(self), LeafWrite::Insert(k, p))),
            crud matches CRUDOperation::Update(k, p) ==> (r is Error ==> write_refused(*final(self), LeafWrite::Update(k, p))),
            crud matches CRUDOperation::Delete(k) ==> (r is Error ==> write_refused(*final(self), LeafWrite::Delete(k))),
            crud matches CRUDOperation::Insert(k, p) ==> (!(r is Error) ==> exists|t: Self| #[trigger] key_write_effect(
                t,
                *final(self),
                LeafWrite::Insert(k, p),
            ) && old(self).evolves_to(t, old(self).global_clock.0)),
            crud matches CRUDOperation::Update(k, p) ==> (!(r is Error) && !answered_in_place(r, *final(self)) ==> exists|
                t: Self,
            | #[trigger] key_write_effect(t, *final(self), LeafWrite::Update(k, p)) && old(self).evolves_to(
                t,
                old(self).global_clock.0,
            )),
            crud matches CRUDOperation::Delete(k) ==> (!(r is Error) ==> exists|t: Self| #[trigger] key_write_effect(
                t,
                *final(self),
                LeafWrite::Delete(k),
            ) && old(self).evolves_to(t, old(self).global_clock.0)),
            r matches CRUDOperationResult::InsertedRand(k, w) ==> rand_key_written(*final(self), k, w)
                && key_in_leaf_fence(*final(self), k),
            !answered_in_place(r, *final(self)) ==> (r matches CRUDOperationResult::UpdatedRand(k, w)
                ==> rand_key_written(*final(self), k, w)),
            answered_in_place(r, *final(self)) && r is UpdatedRand ==> final(self).in_place_on()
                && rewritten_in_place(*final(self), r->UpdatedRand_0),
            r matches CRUDOperationResult::DeletedRand(k, w) ==> rand_key_closed(*final(self), k, w),
            r matches CRUDOperationResult::InsertedRand(k, w) ==> some_leaf_ends_with(final(self).blocks@, k, w),
            !answered_in_place(r, *final(self)) ==> (r matches CRUDOperationResult::UpdatedRand(k, w)
                ==> some_leaf_ends_with(final(self).blocks@, k, w)),
            r matches CRUDOperationResult::DeletedRand(k, w) ==> some_leaf_closed(final(self).blocks@, k, w),
            crud matches CRUDOperation::Insert(key, payload) ==> (r matches CRUDOperationResult::Inserted(w)
                ==> forall|v: Version| v >= w ==> #[trigger] final(self).spec_point_read(key, v) == Some(payload)),
            crud matches CRUDOperation::Update(key, payload) ==> (!answered_in_place(r, *final(self)) ==> (
                r matches CRUDOperationResult::Updated(w) ==> forall|v: Version| v >= w
                    ==> #[trigger] final(self).spec_point_read(key, v) == Some(payload))),
            crud matches CRUDOperation::Update(key, payload) ==> (answered_in_place(r, *final(self))
                ==> old(self).in_place_on() && updated_in_place(*final(self), key, payload)),
            crud matches CRUDOperation::Insert(key, payload) ==> write_outcome(
                final(self).write_leaf_records(key), LeafWrite::Insert(key, payload), r),
            crud matches CRUDOperation::Update(key, payload) ==> (!answered_in_place(r, *final(self)) ==> write_outcome(
                final(self).write_leaf_records(key), LeafWrite::Update(key, payload), r)),
            crud matches CRUDOperation::Delete(key) ==> write_outcome(
                final(self).write_leaf_records(key), LeafWrite::Delete(key), r),
            match crud {
                CRUDOperation::Insert(..) => r is Inserted || r is Error,
                CRUDOperation::Update(..) => r is Updated || r is ZeroAffected || r is Error,
                CRUDOperation::Delete(..) => r is Deleted || r is ZeroAffected || r is Error,
                CRUDOperation::Point(key, version) => if version >= START_VERSION {
                    r matches CRUDOperationResult::MatchedRecords(v) && match old(self).spec_point_read(key, version) {
                        None => v@.len() == 0,
                        Some(p) => v@.len() == 1 && v@[0].key == key && v@[0].payload == p,
                    }
                } else {
                    r is Error
                },
                CRUDOperation::Range(range, version) => if version >= START_VERSION {
                    r matches CRUDOperationResult::MatchedRecords(v) && v@ == old(self).spec_range_read(range, version)
                } else {
                    r is Error
                },
                CRUDOperation::RangeIter(range, version) => if version >= START_VERSION {
                    r matches CRUDOperationResult::MatchedRecords(v) && v@ == old(self).spec_range_read(range, version)
                } else {
                    r is Error
                },
                CRUDOperation::InsertRand => r is InsertedRand || r is Error,
                CRUDOperation::UpdateRand => r is UpdatedRand || r is ZeroAffected || r is Error,
                CRUDOperation::DeleteRand => r is DeletedRand || r is ZeroAffected || r is Error,
                _ => r is Error,
            },
            match r {
                CRUDOperationResult::Inserted(w) => final(self).global_clock.0 == w + 1 && w >= old(self).global_clock.0,
                CRUDOperationResult::Updated(w) => final(self).global_clock.0 == w + 1 && w >= old(self).global_clock.0
                    || final(self).global_clock.0 == w,
                CRUDOperationResult::Deleted(w) => final(self).global_clock.0 == w + 1 && w >= old(self).global_clock.0,
                CRUDOperationResult::InsertedRand(_, w) => final(self).global_clock.0 == w + 1 && w >= old(self).global_clock.0,
                CRUDOperationResult::UpdatedRand(_, w) => final(self).global_clock.0 == w + 1 && w >= old(self).global_clock.0
                    || final(self).global_clock.0 == w,
                CRUDOperationResult::DeletedRand(_, w) => final(self).global_clock.0 == w + 1 && w >= old(self).global_clock.0,
                _ => true,
            },
    {
        let ghost t0 = *self;
        match crud {
            CRUDOperation::Insert(key, payload) => {
                let r = self.dispatch_write(LeafWrite::Insert(key, payload));
                proof {
                    t0.lemma_evolves_reads(*self, t0.global_clock.0);
                }
                r
            },
            CRUDOperation::Update(key, payload) => {
                if self.block_manager.update_in_place && self.block_manager.tracker.is_some() {
                    match self.try_update_in_place(key, payload) {
                        Some(v) => {
                            return CRUDOperationResult::Updated(v);
                        },
                        None => {},
                    }
                }
                let ghost mid = *self;
                proof {
                    t0.lemma_evolves_refl(t0.global_clock.0);
                    if t0.leaf_root_writable() {
                        t0.lemma_leaf_root_key_writable(key);
                    }
                }
                let r = self.dispatch_write(LeafWrite::Update(key, payload));
                proof {
                    t0.lemma_evolves_trans(mid, *self, t0.global_clock.0, mid.global_clock.0, t0.global_clock.0);
                    t0.lemma_evolves_reads(*self, t0.global_clock.0);
                    if !(r is Error) {
                        let op = LeafWrite::Update(key, payload);
                        let t = choose|t: Self| #[trigger] key_write_effect(t, *self, op) && mid.evolves_to(
                            t,
                            mid.global_clock.0,
                        );
                        t0.lemma_evolves_trans(mid, t, t0.global_clock.0, mid.global_clock.0, t0.global_clock.0);
                    }
                }
                r
            },
            CRUDOperation::Delete(key) => {
                let r = self.dispatch_write(LeafWrite::Delete(key));
                proof {
                    t0.lemma_evolves_reads(*self, t0.global_clock.0);
                }
                r
            },
            CRUDOperation::Point(key, version) => {
                if version < START_VERSION {
                    return CRUDOperationResult::Error;
                }
                self.block_manager.register_reader(version, TREE_READER);
                proof {
                    Self::lemma_blocks_ok_same(t0, *self);
                }
                let root = self.retrieve_root_for(version);
                proof {
                    assert(self.spec_root_for(version) is Some);
                    crate::mv_root::frugal_root::lemma_newest_at_most(self.root.history(), self.root.head(), version);
                }
                let res = self.key_point_read_from_root(root, key, version);
                self.block_manager.release_reader(version, TREE_READER);
                proof {
                    Self::lemma_blocks_ok_same(t0, *self);
                    assert(t0.spec_root_for(version) == self.spec_root_for(version));
                    t0.lemma_evolves_refl(t0.global_clock.0);
                    assert(t0.evolves_to(*self, t0.global_clock.0));
                    t0.lemma_evolves_reads(*self, t0.global_clock.0);
                }
                res
            },
            CRUDOperation::Range(range, version) => {
                if version < START_VERSION {
                    return CRUDOperationResult::Error;
                }
                self.block_manager.register_reader(version, TREE_READER);
                proof {
                    Self::lemma_blocks_ok_same(t0, *self);
                }
                let root = self.retrieve_root_for(version);
                proof {
                    crate::mv_root::frugal_root::lemma_newest_at_most(self.root.history(), self.root.head(), version);
                }
                let res = self.key_range_read_from_root(root, range, version);
                self.block_manager.release_reader(version, TREE_READER);
                proof {
                    Self::lemma_blocks_ok_same(t0, *self);
                    assert(t0.spec_root_for(version) == self.spec_root_for(version));
                    t0.lemma_evolves_refl(t0.global_clock.0);
                    assert(t0.evolves_to(*self, t0.global_clock.0));
                    t0.lemma_evolves_reads(*self, t0.global_clock.0);
                }
                res
            },
            CRUDOperation::RangeIter(range, version) => {
                if version < START_VERSION {
                    return CRUDOperationResult::Error;
                }
                self.block_manager.register_reader(version, TREE_READER);
                proof {
                    Self::lemma_blocks_ok_same(t0, *self);
                }
                let root = self.retrieve_root_for(version);
                proof {
                    crate::mv_root::frugal_root::lemma_newest_at_most(self.root.history(), self.root.head(), version);
                }
                let res = self.key_range_read_from_root(root, range, version);
                self.block_manager.release_reader(version, TREE_READER);
                proof {
                    Self::lemma_blocks_ok_same(t0, *self);
                    assert(t0.spec_root_for(version) == self.spec_root_for(version));
                    t0.lemma_evolves_refl(t0.global_clock.0);
                    assert(t0.evolves_to(*self, t0.global_clock.0));
                    t0.lemma_evolves_reads(*self, t0.global_clock.0);
                }
                res
            },
            CRUDOperation::InsertRand => {
                let r = self.dispatch_insert_rand();
                proof {
                    t0.lemma_evolves_reads(*self, t0.global_clock.0);
                }
                r
            },
            CRUDOperation::UpdateRand => {
                let r = self.dispatch_rand_write(false);
                proof {
                    if !answered_in_place(r, *self) {
                        t0.lemma_evolves_reads(*self, t0.global_clock.0);
                    }
                }
                r
            },
            CRUDOperation::DeleteRand => {
                let r = self.dispatch_rand_write(true);
                proof {
                    t0.lemma_evolves_reads(*self, t0.global_clock.0);
                }
                r
            },
            _ => CRUDOperationResult::Error,
        }
    }

    /// Inserts a random key: a random writer's leaf is reached, and a key of
    /// its fence is drawn until one has no record there or its newest record is
    /// closed (at most `RAND_ATTEMPTS_MAX` + 1 draws); it is inserted with the
    /// default payload at the next commit version. `Error` when no leaf is
    /// reached, the fence is empty, no key is found or the leaf is full.
    #[verifier::spinoff_prover]
    fn dispatch_insert_rand(&mut self) -> (r: CRUDOperationResult<P>)
        requires
            old(self).wf(),
            old(self).version_inv(),
        ensures
            final(self).gc_mode() == old(self).gc_mode(),
            final(self).wf(),
            final(self).version_inv(),
            final(self).global_clock.0 >= old(self).global_clock.0,
            old(self).evolves_to(*final(self), old(self).global_clock.0),
            r is InsertedRand || r is Error,
            r matches CRUDOperationResult::InsertedRand(_, w) ==> final(self).global_clock.0 == w + 1
                && w >= old(self).global_clock.0,
            r matches CRUDOperationResult::InsertedRand(k, w) ==> some_leaf_ends_with(final(self).blocks@, k, w),
            r matches CRUDOperationResult::InsertedRand(k, w) ==> rand_key_written(*final(self), k, w)
                && key_in_leaf_fence(*final(self), k),
    {
        let (fence, leaf) = match self.traversal_write_rand_query() {
            Some(x) => x,
            None => {
                return CRUDOperationResult::Error;
            },
        };
        if fence.lower > fence.upper {
            return CRUDOperationResult::Error;
        }
        let _n = self.blocks.len();
        let mut attempts: Attempts = 0;
        let mut chosen: Option<Key> = None;
        while chosen.is_none() && attempts <= RAND_ATTEMPTS_MAX
            invariant
                self.wf(),
                leaf < self.blocks@.len(),
                _n == self.blocks@.len(),
                self.blocks@[leaf as int].node_data is Leaf,
                fence.lower <= fence.upper,
                attempts <= RAND_ATTEMPTS_MAX + 1,
                self.reached_under(fence, leaf as int),
                chosen matches Some(k) ==> fence.lower <= k <= fence.upper && write_route(
                    self.blocks@,
                    self.root.history()[self.root.head()].payload.0 as int,
                    k,
                    self.root.history()[self.root.head()].payload.1 as nat,
                ) == Some(leaf as int),
            decreases RAND_ATTEMPTS_MAX + 1 - attempts + if chosen is None { 1int } else { 0int },
        {
            let generated = random_in(fence.lower, fence.upper);
            let blk = &self.blocks[leaf as usize];
            proof {
                assert(self.blocks@[leaf as int] == *blk);
                assert(self.block_ok(leaf as int));
            }
            let free = match &blk.node_data {
                Node::Leaf(l) => match newest_of_key(l, generated) {
                    None => true,
                    Some(i) => l.slots[i].version.is_deleted(),
                },
                Node::Index(_) => false,
            };
            let routed = match self.write_leaf_of(generated) {
                Some(b) => b == leaf,
                None => false,
            };
            if free && routed {
                chosen = Some(generated);
            } else {
                attempts = attempts + 1;
            }
        }
        let key = match chosen {
            Some(k) => k,
            None => {
                return CRUDOperationResult::Error;
            },
        };
        let full = match &self.blocks[leaf as usize].node_data {
            Node::Leaf(l) => l.len() >= NUM_RECORDS,
            Node::Index(_) => true,
        };
        if full {
            return CRUDOperationResult::Error;
        }
        let ghost t1 = *self;
        let w = match self.start_tx_commit() {
            Some(w) => w,
            None => {
                return CRUDOperationResult::Error;
            },
        };
        let ghost t2 = *self;
        let payload = P::default();
        let _ = self.apply_leaf_write(leaf, LeafWrite::Insert(key, payload), w);
        proof {
            let w0 = old(self).global_clock.0;
            assert(t2.blocks@.take(t1.blocks@.len() as int) =~= t1.blocks@);
            t1.lemma_evolves_by_append(t2, w0);
            old(self).lemma_evolves_trans(t1, t2, w0, w0, w0);
            old(self).lemma_evolves_trans(t2, *self, w0, w, w0);
            let l2 = self.blocks@[leaf as int].node_data->Leaf_0;
            assert(l2.records().last().key == key);
            assert(leaf_ends_with(self.blocks@[leaf as int], key, w));
            assert(some_leaf_ends_with(self.blocks@, key, w));
            let h = self.root.history()[self.root.head()].payload;
            assert(t2.root.history()[t2.root.head()].payload == h);
            t2.lemma_write_route_leaf_change(*self, leaf as int, h.0 as int, key, h.1 as nat);
            self.lemma_read_your_write(key, payload, w, leaf as int);
            assert(self.levels@.take(t1.blocks@.len() as int) =~= t1.levels@);
            t1.lemma_reached_under_keep(*self, fence, leaf as int);
            assert(rand_key_written(*self, key, w));
            assert(key_in_leaf_fence(*self, key));
        }
        CRUDOperationResult::InsertedRand(key, w)
    }

    /// Updates (`delete` false) or deletes a random live key: a random
    /// writer's leaf is reached and one of its live records drawn; the update
    /// writes the default payload. `Error` when no leaf is reached, the leaf
    /// has no live record or, for an update, is full.
    #[verifier::spinoff_prover]
    fn dispatch_rand_write(&mut self, delete: bool) -> (r: CRUDOperationResult<P>)
        requires
            old(self).wf(),
            old(self).version_inv(),
        ensures
            final(self).gc_mode() == old(self).gc_mode(),
            final(self).wf(),
            final(self).version_inv(),
            final(self).global_clock.0 >= old(self).global_clock.0,
            !answered_in_place(r, *final(self)) ==> old(self).evolves_to(*final(self), old(self).global_clock.0),
            delete ==> r is DeletedRand || r is ZeroAffected || r is Error,
            !delete ==> r is UpdatedRand || r is ZeroAffected || r is Error,
            r matches CRUDOperationResult::UpdatedRand(_, w) ==> final(self).global_clock.0 == w + 1
                && w >= old(self).global_clock.0 || final(self).global_clock.0 == w,
            r matches CRUDOperationResult::DeletedRand(_, w) ==> final(self).global_clock.0 == w + 1
                && w >= old(self).global_clock.0,
            !answered_in_place(r, *final(self)) ==> (r matches CRUDOperationResult::UpdatedRand(k, w)
                ==> some_leaf_ends_with(final(self).blocks@, k, w)),
            r matches CRUDOperationResult::DeletedRand(k, w) ==> some_leaf_closed(final(self).blocks@, k, w),
            !answered_in_place(r, *final(self)) ==> (r matches CRUDOperationResult::UpdatedRand(k, w)
                ==> rand_key_written(*final(self), k, w)),
            answered_in_place(r, *final(self)) ==> r is UpdatedRand && final(self).in_place_on()
                && rewritten_in_place(*final(self), r->UpdatedRand_0),
            r matches CRUDOperationResult::DeletedRand(k, w) ==> rand_key_closed(*final(self), k, w),
    {
        let (_fence, leaf) = match self.traversal_write_rand_query() {
            Some(x) => x,
            None => {
                return CRUDOperationResult::Error;
            },
        };
        let _n = self.blocks.len();
        let blk = &self.blocks[leaf as usize];
        proof {
            assert(self.blocks@[leaf as int] == *blk);
            assert(self.block_ok(leaf as int));
        }
        let key = match &blk.node_data {
            Node::Leaf(l) => {
                let live = live_records(l);
                if live.len() == 0 || (!delete && l.len() >= NUM_RECORDS) {
                    return CRUDOperationResult::Error;
                }
                let find_i = random_in(0, (live.len() - 1) as u64) as usize;
                live[find_i].key
            },
            Node::Index(_) => {
                return CRUDOperationResult::Error;
            },
        };
        match self.write_leaf_of(key) {
            Some(b) => if b != leaf {
                return CRUDOperationResult::Error;
            },
            None => {
                return CRUDOperationResult::Error;
            },
        }
        if !delete && self.block_manager.update_in_place {
            let fresh = P::default();
            if self.rewrite_if_unseen(leaf, key, fresh) {
                let v = self.current_version();
                proof {
                    assert(updated_in_place(*self, key, fresh));
                    assert(rewritten_in_place(*self, key));
                    assert(self.in_place_on());
                }
                return CRUDOperationResult::UpdatedRand(key, v);
            }
        }
        let ghost t1 = *self;
        let w = match self.start_tx_commit() {
            Some(w) => w,
            None => {
                return CRUDOperationResult::Error;
            },
        };
        let ghost t2 = *self;
        let payload = P::default();
        let op = if delete { LeafWrite::Delete(key) } else { LeafWrite::Update(key, payload) };
        let res = self.apply_leaf_write(leaf, op, w);
        proof {
            let w0 = old(self).global_clock.0;
            assert(t2.blocks@.take(t1.blocks@.len() as int) =~= t1.blocks@);
            t1.lemma_evolves_by_append(t2, w0);
            old(self).lemma_evolves_trans(t1, t2, w0, w0, w0);
            old(self).lemma_evolves_trans(t2, *self, w0, w, w0);
            if res is Ok {
                let l1 = t2.blocks@[leaf as int].node_data->Leaf_0;
                let l2 = self.blocks@[leaf as int].node_data->Leaf_0;
                crate::mv_page_model::leaf_page::lemma_last_index_of_key(l1.records(), key);
                let i = last_index_of_key(l1.records(), key)->Some_0;
                lemma_last_index_close_at(l1.records(), i, w, key);
                assert((l2.records(), res) == spec_leaf_write(l1.records(), op, w));
                let h = self.root.history()[self.root.head()].payload;
                assert(t2.root.history()[t2.root.head()].payload == h);
                t2.lemma_write_route_leaf_change(*self, leaf as int, h.0 as int, key, h.1 as nat);
                if delete {
                    assert(leaf_closed(self.blocks@[leaf as int], key, w));
                    assert(some_leaf_closed(self.blocks@, key, w));
                    assert(rand_key_closed(*self, key, w));
                } else {
                    assert(leaf_ends_with(self.blocks@[leaf as int], key, w));
                    assert(some_leaf_ends_with(self.blocks@, key, w));
                    self.lemma_read_your_write(key, payload, w, leaf as int);
                    assert(rand_key_written(*self, key, w));
                }
            }
        }
        match res {
            Ok(()) => if delete {
                CRUDOperationResult::DeletedRand(key, w)
            } else {
                CRUDOperationResult::UpdatedRand(key, w)
            },
            Err(reason) => CRUDOperationResult::ZeroAffected(reason),
        }
    }

    /// A write: reaches the leaf of the key, takes the next commit version and
    /// applies `op` there. An update or delete that is refused (no record of
    /// the key, or its newest record already closed) leaves the leaf's records
    /// and counts as they were; the commit version it took is not handed out
    /// again.
    #[verifier::spinoff_prover]
    #[verifier::rlimit(60)]
    fn dispatch_write(&mut self, op: LeafWrite<P>) -> (r: CRUDOperationResult<P>)
        requires
            old(self).wf(),
            old(self).version_inv(),
        ensures
            final(self).gc_mode() == old(self).gc_mode(),
            final(self).wf(),
            final(self).version_inv(),
            final(self).global_clock.0 >= old(self).global_clock.0,
            old(self).evolves_to(*final(self), old(self).global_clock.0),
            op matches LeafWrite::Insert(key, payload) ==> (r matches CRUDOperationResult::Inserted(w)
                ==> forall|v: Version| v >= w ==> #[trigger] final(self).spec_point_read(key, v) == Some(payload)),
            op matches LeafWrite::Update(key, payload) ==> (r matches CRUDOperationResult::Updated(w)
                ==> forall|v: Version| v >= w ==> #[trigger] final(self).spec_point_read(key, v) == Some(payload)),
            match op {
                LeafWrite::Insert(..) => r is Inserted || r is Error,
                LeafWrite::Update(..) => r is Updated || r is ZeroAffected || r is Error,
                LeafWrite::Delete(..) => r is Deleted || r is ZeroAffected || r is Error,
            },
            write_outcome(final(self).write_leaf_records(leaf_write_key(op)), op, r),
            r is Error ==> write_refused(*final(self), op),
            old(self).leaf_root_writable() ==> !(r is Error),
            old(self).key_writable(leaf_write_key(op)) ==> !(r is Error) && key_write_effect(*old(self), *final(self), op),
            !(r is Error) ==> exists|t: Self| #[trigger] key_write_effect(t, *final(self), op) && old(self).evolves_to(
                t,
                old(self).global_clock.0,
            ),
            old(self).key_writable(leaf_write_key(op)) && !(op is Insert) ==> ((r is Updated || r is Deleted)
                <==> newest_live(old(self).write_leaf_records(leaf_write_key(op)), leaf_write_key(op))),
            old(self).leaf_root_writable() ==> leaf_root_write_effect(*old(self), *final(self), op),
            old(self).leaf_root_writable() && r is ZeroAffected && old(self).global_clock.0 + 1 < OBSOLETE_VERSION_MARK
                - 1 ==> final(self).leaf_root_writable(),
            old(self).leaf_root_writable() && !(op is Insert) ==> ((r is Updated || r is Deleted) <==> newest_live(
                old(self).write_leaf_records(leaf_write_key(op)),
                leaf_write_key(op),
            )),
            match r {
                CRUDOperationResult::Inserted(w) => final(self).global_clock.0 == w + 1 && w >= old(self).global_clock.0,
                CRUDOperationResult::Updated(w) => final(self).global_clock.0 == w + 1 && w >= old(self).global_clock.0,
                CRUDOperationResult::Deleted(w) => final(self).global_clock.0 == w + 1 && w >= old(self).global_clock.0,
                _ => true,
            },
    {
        let key = match op {
            LeafWrite::Insert(k, _) => k,
            LeafWrite::Update(k, _) => k,
            LeafWrite::Delete(k) => k,
        };
        let leaf = match self.traversal_write(key) {
            Some(b) => b,
            None => {
                return CRUDOperationResult::Error;
            },
        };
        let _n = self.blocks.len();
        let full = match &self.blocks[leaf as usize].node_data {
            Node::Leaf(l) => l.len() >= NUM_RECORDS,
            Node::Index(_) => true,
        };
        let (is_delete, kind) = match op {
            LeafWrite::Insert(..) => (false, 0u8),
            LeafWrite::Update(..) => (false, 1u8),
            LeafWrite::Delete(_) => (true, 2u8),
        };
        proof {
            if old(self).leaf_root_writable() {
                assert(leaf as int == old(self).head_root_block());
                assert(!full);
            }
            if old(self).key_writable(key) {
                let h = old(self).root.history()[old(self).root.head()].payload;
                lemma_descent_leaf(old(self).blocks@, h.0 as int, key, h.1 as nat);
                assert(self.block_ok(leaf as int));
                assert(!full);
            }
        }
        if full && !is_delete {
            return CRUDOperationResult::Error;
        }
        let ghost t1 = *self;
        let w = match self.start_tx_commit() {
            Some(w) => w,
            None => {
                return CRUDOperationResult::Error;
            },
        };
        let ghost t2 = *self;
        let res = self.apply_leaf_write(leaf, op, w);
        proof {
            let w0 = old(self).global_clock.0;
            assert(old(self).evolves_to(t1, w0));
            assert(t2.blocks@.take(t1.blocks@.len() as int) =~= t1.blocks@);
            t1.lemma_evolves_by_append(t2, w0);
            old(self).lemma_evolves_trans(t1, t2, w0, w0, w0);
            old(self).lemma_evolves_trans(t2, *self, w0, w, w0);
            let h = self.root.history()[self.root.head()].payload;
            assert(t2.root.history()[t2.root.head()].payload == h);
            t2.lemma_write_route_leaf_change(*self, leaf as int, h.0 as int, key, h.1 as nat);
            let l2 = self.blocks@[leaf as int].node_data->Leaf_0;
            assert(write_route(t2.blocks@, h.0 as int, key, h.1 as nat) == Some(leaf as int));
            assert(self.write_leaf_records(key) == Some(l2.records()));
            let l1 = t2.blocks@[leaf as int].node_data->Leaf_0;
            assert((l2.records(), res) == spec_leaf_write(l1.records(), op, w));
            if old(self).leaf_root_writable() {
                assert(t2.write_leaf_records(key) == Some(l1.records()));
                assert(t2.blocks == old(self).blocks && t2.root == old(self).root);
                assert(old(self).write_leaf_records(key) == Some(l1.records()));
                assert(w == old(self).global_clock.0);
                assert(leaf as int == old(self).head_root_block());
                assert(leaf_root_write_effect(*old(self), *self, op));
                if res is Err {
                    assert(l2.records() == l1.records());
                    assert(self.block_ok(leaf as int));
                    assert(t2.block_ok(leaf as int));
                    assert(l2.committed_len() == l2.records().len());
                    assert(l1.committed_len() == l1.records().len());
                    assert(self.head_root_block() == old(self).head_root_block());
                }
            }
            crate::mv_page_model::leaf_page::lemma_last_index_of_key(l1.records(), key);
            if let Some(i) = last_index_of_key(l1.records(), key) {
                lemma_last_index_close_at(l1.records(), i, w, key);
            }
            match op {
                LeafWrite::Insert(k, p) => {
                    assert(l2.records().last() == RecordPoint { key: k, version: VersionInfo { insert_version: w, delete_version: None }, payload: p });
                    self.lemma_read_your_write(k, p, w, leaf as int);
                    assert(write_outcome(self.write_leaf_records(key), op, CRUDOperationResult::<P>::Inserted(w)));
                },
                LeafWrite::Update(k, p) => {
                    if res is Ok {
                        assert(l2.records().last() == RecordPoint { key: k, version: VersionInfo { insert_version: w, delete_version: None }, payload: p });
                        self.lemma_read_your_write(k, p, w, leaf as int);
                        assert(write_outcome(self.write_leaf_records(key), op, CRUDOperationResult::<P>::Updated(w)));
                    } else {
                        assert(write_outcome(self.write_leaf_records(key), op, CRUDOperationResult::<P>::ZeroAffected(res->Err_0)));
                    }
                },
                LeafWrite::Delete(_) => {
                    if res is Ok {
                        assert(write_outcome(self.write_leaf_records(key), op, CRUDOperationResult::<P>::Deleted(w)));
                    } else {
                        assert(write_outcome(self.write_leaf_records(key), op, CRUDOperationResult::<P>::ZeroAffected(res->Err_0)));
                    }
                },
            }
            assert(key_write_effect(t1, *self, op));
        }
        if kind == 0 {
            CRUDOperationResult::Inserted(w)
        } else if kind == 1 {
            match res {
                Ok(()) => CRUDOperationResult::Updated(w),
                Err(reason) => CRUDOperationResult::ZeroAffected(reason),
            }
        } else {
            match res {
                Ok(()) => CRUDOperationResult::Deleted(w),
                Err(reason) => CRUDOperationResult::ZeroAffected(reason),
            }
        }
    }
}

} // verus!
