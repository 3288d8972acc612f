use vstd::prelude::*;
use crate::mv_crud_model::crud_operation_result::CRUDOperationInnerReason;
use crate::mv_page_model::leaf_page::{last_index_of_key, lemma_last_index_of_key, LeafPage};
use crate::mv_record_model::record_point::{Key, RecordPoint};
use crate::mv_record_model::version_info::{Version, VersionInfo};
use crate::mv_sync::smart_cell::{spec_active_len, spec_dead_len};

verus! {

/// Number of records whose lifespan is still open.
pub open spec fn count_live<P>(recs: Seq<RecordPoint<P>>) -> nat
    decreases recs.len(),
{
    if recs.len() == 0 {
        0
    } else {
        count_live(recs.drop_last()) + if recs.last().version.delete_version is None { 1nat } else { 0nat }
    }
}

/// Position of the newest record with key `key` visible at snapshot `v`.
pub open spec fn visible_index<P>(recs: Seq<RecordPoint<P>>, key: Key, v: Version) -> Option<int>
    decreases recs.len(),
{
    if recs.len() == 0 {
        None
    } else if recs.last().key == key && recs.last().version.spec_matches(v) {
        Some(recs.len() - 1)
    } else {
        visible_index(recs.drop_last(), key, v)
    }
}

/// The newest record of `key`, when it is live and began no later than `v`,
/// is what a reader of snapshot `v` sees.
pub proof fn lemma_newest_live_visible<P>(recs: Seq<RecordPoint<P>>, key: Key, i: int, v: Version)
    requires
        crate::mv_page_model::leaf_page::last_index_of_key(recs, key) == Some(i),
        recs[i].version.delete_version is None,
        recs[i].version.insert_version <= v,
    ensures
        visible_index(recs, key, v) == Some(i),
        lookup(recs, key, v) == Some(recs[i].payload),
    decreases recs.len(),
{
    if recs.len() > 0 && recs.last().key != key {
        crate::mv_page_model::leaf_page::lemma_last_index_of_key(recs.drop_last(), key);
        assert(recs.drop_last()[i] == recs[i]);
        lemma_newest_live_visible(recs.drop_last(), key, i, v);
    }
}

/// The payload a reader of snapshot `v` sees for `key`.
pub open spec fn lookup<P>(recs: Seq<RecordPoint<P>>, key: Key, v: Version) -> Option<P> {
    match visible_index(recs, key, v) {
        Some(i) => Some(recs[i].payload),
        None => None,
    }
}

/// Per key, every older record's lifespan is closed no later than the next
/// record of that key begins: at most the newest record of a key is open,
/// and no two records of a key are visible at the same snapshot.
pub open spec fn history_ok<P>(recs: Seq<RecordPoint<P>>) -> bool {
    forall|i: int, j: int|
        #![trigger recs[i], recs[j]]
        0 <= i < j < recs.len() && recs[i].key == recs[j].key ==> match recs[i].version.delete_version {
            Some(d) => d <= recs[j].version.insert_version,
            None => false,
        }
}

/// Every version recorded in `recs` (insert or delete) is older than `w`.
pub open spec fn versions_below<P>(recs: Seq<RecordPoint<P>>, w: Version) -> bool {
    forall|i: int|
        #![trigger recs[i]]
        0 <= i < recs.len() ==> {
            &&& recs[i].version.insert_version < w
            &&& recs[i].version.delete_version matches Some(d) ==> d < w
        }
}

/// `recs` with the lifespan of record `i` closed at `w`.
pub open spec fn close_at<P>(recs: Seq<RecordPoint<P>>, i: int, w: Version) -> Seq<RecordPoint<P>> {
    recs.update(
        i,
        RecordPoint {
            version: VersionInfo { insert_version: recs[i].version.insert_version, delete_version: Some(w) },
            ..recs[i]
        },
    )
}

pub proof fn lemma_visible_index<P>(recs: Seq<RecordPoint<P>>, key: Key, v: Version)
    ensures
        match visible_index(recs, key, v) {
            None => forall|j: int| 0 <= j < recs.len() ==> !(recs[j].key == key && recs[j].version.spec_matches(v)),
            Some(i) => 0 <= i < recs.len() && recs[i].key == key && recs[i].version.spec_matches(v)
                && forall|j: int| i < j < recs.len() ==> !(recs[j].key == key && recs[j].version.spec_matches(v)),
        },
    decreases recs.len(),
{
    if recs.len() > 0 && !(recs.last().key == key && recs.last().version.spec_matches(v)) {
        let rest = recs.drop_last();
        lemma_visible_index(rest, key, v);
        assert forall|j: int| 0 <= j < rest.len() implies rest[j] == recs[j] by {}
    }
}

/// Two sequences that agree on which records are visible at `v` (and on their
/// keys and payloads) give the same lookups at `v`.
proof fn lemma_visible_index_same<P>(a: Seq<RecordPoint<P>>, b: Seq<RecordPoint<P>>, key: Key, v: Version)
    requires
        a.len() == b.len(),
        forall|j: int| 0 <= j < a.len() ==> {
            &&& (a[j].key == key && a[j].version.spec_matches(v)) == (b[j].key == key && b[j].version.spec_matches(v))
            &&& a[j].payload == b[j].payload
        },
    ensures
        visible_index(a, key, v) == visible_index(b, key, v),
        lookup(a, key, v) == lookup(b, key, v),
    decreases a.len(),
{
    if a.len() > 0 {
        lemma_visible_index_same(a.drop_last(), b.drop_last(), key, v);
    }
    lemma_visible_index(a, key, v);
}

proof fn lemma_count_live_update<P>(recs: Seq<RecordPoint<P>>, i: int, r: RecordPoint<P>)
    requires
        0 <= i < recs.len(),
    ensures
        count_live(recs.update(i, r)) == count_live(recs)
            - (if recs[i].version.delete_version is None { 1int } else { 0int })
            + (if r.version.delete_version is None { 1int } else { 0int }),
    decreases recs.len(),
{
    if i < recs.len() - 1 {
        assert(recs.update(i, r).drop_last() =~= recs.drop_last().update(i, r));
        lemma_count_live_update(recs.drop_last(), i, r);
    } else {
        assert(recs.update(i, r).drop_last() =~= recs.drop_last());
    }
}

proof fn lemma_count_live_push<P>(recs: Seq<RecordPoint<P>>, r: RecordPoint<P>)
    ensures
        count_live(recs.push(r)) == count_live(recs) + (if r.version.delete_version is None { 1int } else { 0int }),
{
    assert(recs.push(r).drop_last() =~= recs);
}

/// Closing a lifespan keeps every key where it was: the newest record of a
/// key stays the newest.
pub proof fn lemma_last_index_close_at<P>(recs: Seq<RecordPoint<P>>, i: int, w: Version, key: Key)
    requires
        0 <= i < recs.len(),
    ensures
        last_index_of_key(close_at(recs, i, w), key) == last_index_of_key(recs, key),
{
    let c = close_at(recs, i, w);
    lemma_last_index_of_key(recs, key);
    lemma_last_index_of_key(c, key);
    assert forall|j: int| 0 <= j < recs.len() implies c[j].key == recs[j].key by {}
}

pub proof fn lemma_count_live_bound<P>(recs: Seq<RecordPoint<P>>)
    ensures
        count_live(recs) <= recs.len(),
    decreases recs.len(),
{
    if recs.len() > 0 {
        lemma_count_live_bound(recs.drop_last());
    }
}

proof fn lemma_live_record_counts<P>(recs: Seq<RecordPoint<P>>, i: int)
    requires
        0 <= i < recs.len(),
        recs[i].version.delete_version is None,
    ensures
        count_live(recs) >= 1,
    decreases recs.len(),
{
    if i < recs.len() - 1 {
        lemma_live_record_counts(recs.drop_last(), i);
    }
}


/// Snapshot stability of an insert: appending a record inserted at `w`
/// changes no lookup at a snapshot older than `w`.
pub proof fn law_insert_keeps_older_snapshots<P>(recs: Seq<RecordPoint<P>>, r: RecordPoint<P>, k: Key, v: Version)
    requires
        v < r.version.insert_version,
    ensures
        lookup(recs.push(r), k, v) == lookup(recs, k, v),
{
    assert(recs.push(r).drop_last() =~= recs);
    lemma_visible_index(recs, k, v);
}

/// Read your write: after appending a live record of `key` inserted at `w`,
/// every snapshot from `w` on reads its payload.
pub proof fn law_insert_visible_from_its_version<P>(recs: Seq<RecordPoint<P>>, key: Key, w: Version, payload: P, v: Version)
    requires
        w <= v,
    ensures
        lookup(
            recs.push(RecordPoint { key, version: VersionInfo { insert_version: w, delete_version: None }, payload }),
            key,
            v,
        ) == Some(payload),
{
}

/// Snapshot stability of a delete: closing an open lifespan at `w` changes no
/// lookup at a snapshot older than `w`.
pub proof fn law_close_keeps_older_snapshots<P>(recs: Seq<RecordPoint<P>>, i: int, w: Version, k: Key, v: Version)
    requires
        0 <= i < recs.len(),
        recs[i].version.delete_version is None,
        v < w,
    ensures
        lookup(close_at(recs, i, w), k, v) == lookup(recs, k, v),
{
    let c = close_at(recs, i, w);
    assert forall|j: int| 0 <= j < recs.len() implies {
        &&& (c[j].key == k && c[j].version.spec_matches(v)) == (recs[j].key == k && recs[j].version.spec_matches(v))
        &&& c[j].payload == recs[j].payload
    } by {
        if j == i {
        }
    }
    lemma_visible_index_same(c, recs, k, v);
}

/// A delete hides the key: in a consistent history whose versions are all
/// older than `w`, closing the newest record of `key` at `w` leaves nothing
/// of `key` for snapshots from `w` on.
pub proof fn law_close_hides_key_from_its_version<P>(recs: Seq<RecordPoint<P>>, key: Key, w: Version, v: Version)
    requires
        history_ok(recs),
        versions_below(recs, w),
        last_index_of_key(recs, key) is Some,
        w <= v,
    ensures
        lookup(close_at(recs, last_index_of_key(recs, key)->0, w), key, v) is None,
{
    crate::mv_page_model::leaf_page::lemma_last_index_of_key(recs, key);
    let i = last_index_of_key(recs, key)->0;
    let c = close_at(recs, i, w);
    lemma_visible_index(c, key, v);
    if visible_index(c, key, v) is Some {
        let j = visible_index(c, key, v)->0;
        if j < i {
            assert(recs[j].key == recs[i].key);
            assert(recs[j] == c[j]);
        }
    }
}

/// Closing the newest record of a key keeps a history consistent.
pub proof fn law_close_keeps_history<P>(recs: Seq<RecordPoint<P>>, key: Key, w: Version)
    requires
        history_ok(recs),
        last_index_of_key(recs, key) is Some,
    ensures
        history_ok(close_at(recs, last_index_of_key(recs, key)->0, w)),
{
    crate::mv_page_model::leaf_page::lemma_last_index_of_key(recs, key);
    let i = last_index_of_key(recs, key)->0;
    let c = close_at(recs, i, w);
    assert forall|a: int, b: int|
        #![trigger c[a], c[b]]
        0 <= a < b < c.len() && c[a].key == c[b].key implies match c[a].version.delete_version {
            Some(d) => d <= c[b].version.insert_version,
            None => false,
        } by {
        assert(recs[a].key == recs[b].key);
        if a == i {
            assert(recs[b].key == key);
        }
    }
}

/// Appending a live record of a key keeps a history consistent when every
/// earlier record of that key was closed no later than the new record begins.
pub proof fn law_append_keeps_history<P>(recs: Seq<RecordPoint<P>>, r: RecordPoint<P>)
    requires
        history_ok(recs),
        forall|j: int|
            0 <= j < recs.len() && recs[j].key == r.key ==> (recs[j].version.delete_version matches Some(d)
                && d <= r.version.insert_version),
    ensures
        history_ok(recs.push(r)),
{
    let c = recs.push(r);
    assert forall|a: int, b: int|
        #![trigger c[a], c[b]]
        0 <= a < b < c.len() && c[a].key == c[b].key implies match c[a].version.delete_version {
            Some(d) => d <= c[b].version.insert_version,
            None => false,
        } by {
        if b == recs.len() {
            assert(c[a] == recs[a]);
        } else {
            assert(c[a] == recs[a] && c[b] == recs[b]);
        }
    }
}

/// An update (close the newest record of `key` at `w`, append the new
/// payload at `w`) keeps a consistent history consistent.
pub proof fn law_update_keeps_history<P>(recs: Seq<RecordPoint<P>>, key: Key, w: Version, payload: P)
    requires
        history_ok(recs),
        versions_below(recs, w),
        last_index_of_key(recs, key) is Some,
    ensures
        history_ok(
            close_at(recs, last_index_of_key(recs, key)->0, w).push(
                RecordPoint { key, version: VersionInfo { insert_version: w, delete_version: None }, payload },
            ),
        ),
{
    crate::mv_page_model::leaf_page::lemma_last_index_of_key(recs, key);
    let i = last_index_of_key(recs, key)->0;
    let c = close_at(recs, i, w);
    law_close_keeps_history(recs, key, w);
    assert forall|j: int| 0 <= j < c.len() && c[j].key == key implies (c[j].version.delete_version matches Some(d)
        && d <= w) by {
        if j != i {
            assert(recs[j].key == recs[i].key);
            assert(c[j] == recs[j]);
        }
    }
    law_append_keeps_history(
        c,
        RecordPoint { key, version: VersionInfo { insert_version: w, delete_version: None }, payload },
    );
}

impl<const NUM_RECORDS: usize, P: Copy> LeafPage<NUM_RECORDS, P> {
    /// The counters agree with the records: live ones are counted as active,
    /// closed ones as dead.
    pub open spec fn counts_ok(self) -> bool {
        &&& self.spec_active() == count_live(self.records())
        &&& self.spec_dead() == self.committed_len() - count_live(self.records())
    }

    /// Appends a live record for `key` inserted at `version` and publishes it.
    pub fn insert_versioned(&mut self, key: Key, version: Version, payload: P)
        requires
            old(self).wf(),
            old(self).counts_ok(),
            old(self).committed_len() < NUM_RECORDS,
        ensures
            final(self).wf(),
            final(self).counts_ok(),
            final(self).records() == old(self).records().push(
                RecordPoint { key, version: VersionInfo { insert_version: version, delete_version: None }, payload },
            ),
            final(self).spec_active() == old(self).spec_active() + 1,
            final(self).spec_dead() == old(self).spec_dead(),
    {
        let current_len = self.len();
        let rec = RecordPoint::new(key, VersionInfo::new(version), payload);
        self.push_uncommitted(rec, current_len);
        proof {
            lemma_count_live_bound(old(self).records());
            assert(self.slots@.take(current_len + 1) =~= old(self).records().push(rec));
        }
        self.commit_delta(1, 0);
        proof {
            lemma_count_live_push(old(self).records(), rec);
        }
    }

    /// Closes, at `version`, the lifespan of the newest committed record of
    /// `key` and moves it from the live to the dead counter.
    pub fn delete_versioned(&mut self, key: Key, version: Version) -> (r: Result<(), CRUDOperationInnerReason>)
        requires
            old(self).wf(),
            old(self).counts_ok(),
        ensures
            final(self).wf(),
            final(self).counts_ok(),
            match last_index_of_key(old(self).records(), key) {
                None => r == Err::<(), CRUDOperationInnerReason>(CRUDOperationInnerReason::KeyDoesNotExist)
                    && final(self).records() == old(self).records() && final(self).len == old(self).len,
                Some(i) => if old(self).records()[i].version.delete_version is None {
                    &&& r is Ok
                    &&& final(self).records() == close_at(old(self).records(), i, version)
                } else {
                    &&& r == Err::<(), CRUDOperationInnerReason>(CRUDOperationInnerReason::KeyAlreadyDeleted)
                    &&& final(self).records() == old(self).records()
                    &&& final(self).len == old(self).len
                },
            },
            r is Ok ==> final(self).spec_active() == old(self).spec_active() - 1
                && final(self).spec_dead() == old(self).spec_dead() + 1,
    {
        proof {
            lemma_last_index_of_key(old(self).records(), key);
        }
        let res = self.delete(key, version);
        proof {
            assert(self.committed_len() == old(self).committed_len());
        }
        match res {
            Ok(Some(())) => {
                let ghost i = last_index_of_key(old(self).records(), key)->0;
                proof {
                    assert(self.records() =~= close_at(old(self).records(), i, version));
                    lemma_live_record_counts(old(self).records(), i);
                    lemma_count_live_update(old(self).records(), i, close_at(old(self).records(), i, version)[i]);
                    lemma_count_live_bound(old(self).records());
                }
                self.commit_delta(-1, 1);
                proof {
                    assert(self.records() =~= close_at(old(self).records(), i, version));
                }
                Ok(())
            },
            Ok(None) => {
                proof {
                    assert(self.records() =~= old(self).records());
                }
                Err(CRUDOperationInnerReason::KeyDoesNotExist)
            },
            Err(()) => {
                proof {
                    assert(self.records() =~= old(self).records());
                }
                Err(CRUDOperationInnerReason::KeyAlreadyDeleted)
            },
        }
    }

    /// Rewrites committed record `i` in place: it becomes live again (its
    /// insert version kept) and carries `payload`. A record that was closed
    /// moves from the dead to the live count.
    pub fn rewrite_in_place(&mut self, i: usize, payload: P)
        requires
            old(self).wf(),
            old(self).counts_ok(),
            i < old(self).committed_len(),
        ensures
            final(self).wf(),
            final(self).counts_ok(),
            final(self).records() == old(self).records().update(
                i as int,
                RecordPoint {
                    key: old(self).records()[i as int].key,
                    version: VersionInfo {
                        insert_version: old(self).records()[i as int].version.insert_version,
                        delete_version: None,
                    },
                    payload,
                },
            ),
            old(self).records()[i as int].version.delete_version is Some ==> final(self).spec_active()
                == old(self).spec_active() + 1 && final(self).spec_dead() == old(self).spec_dead() - 1,
            old(self).records()[i as int].version.delete_version is None ==> final(self).len == old(self).len,
    {
        let old_rec = self.slots[i];
        let rec = RecordPoint {
            key: old_rec.key,
            version: VersionInfo { insert_version: old_rec.version.insert_version, delete_version: None },
            payload,
        };
        let was_dead = old_rec.version.delete_version.is_some();
        proof {
            assert(old(self).records()[i as int] == old_rec);
            lemma_count_live_update(old(self).records(), i as int, rec);
            lemma_count_live_bound(old(self).records());
            lemma_count_live_bound(old(self).records().update(i as int, rec));
        }
        self.slots.set(i, rec);
        proof {
            assert(self.records() =~= old(self).records().update(i as int, rec));
        }
        if was_dead {
            self.commit_delta(1, -1);
        }
        proof {
            assert(self.records() =~= old(self).records().update(i as int, rec));
        }
    }

    /// Replaces the newest committed record of `key`: its lifespan is closed
    /// at `version` and a live record with `payload` inserted at `version` is
    /// appended. When the key has no record, or its newest one is closed,
    /// nothing changes.
    pub fn update_versioned(&mut self, key: Key, version: Version, payload: P) -> (r: Result<(), CRUDOperationInnerReason>)
        requires
            old(self).wf(),
            old(self).counts_ok(),
            old(self).committed_len() < NUM_RECORDS,
        ensures
            final(self).wf(),
            final(self).counts_ok(),
            match last_index_of_key(old(self).records(), key) {
                None => r == Err::<(), CRUDOperationInnerReason>(CRUDOperationInnerReason::KeyDoesNotExist)
                    && final(self).records() == old(self).records(),
                Some(i) => if old(self).records()[i].version.delete_version is None {
                    &&& r is Ok
                    &&& final(self).records() == close_at(old(self).records(), i, version).push(
                        RecordPoint {
                            key,
                            version: VersionInfo { insert_version: version, delete_version: None },
                            payload,
                        },
                    )
                } else {
                    &&& r == Err::<(), CRUDOperationInnerReason>(CRUDOperationInnerReason::KeyAlreadyDeleted)
                    &&& final(self).records() == old(self).records()
                },
            },
            r is Ok ==> final(self).spec_active() == old(self).spec_active()
                && final(self).spec_dead() == old(self).spec_dead() + 1,
            r is Err ==> final(self).len == old(self).len,
    {
        let current_len = self.len();
        let rec = RecordPoint::new(key, VersionInfo::new(version), payload);
        self.push_uncommitted(rec, current_len);
        proof {
            assert(self.records() =~= old(self).records());
            lemma_last_index_of_key(old(self).records(), key);
        }
        let ghost mid = *self;
        let res = self.delete(key, version);
        match res {
            Ok(Some(())) => {
                let ghost i = last_index_of_key(old(self).records(), key)->0;
                proof {
                    assert(self.slots@ == mid.slots@.update(i, close_at(old(self).records(), i, version)[i]));
                    lemma_live_record_counts(old(self).records(), i);
                    lemma_count_live_update(old(self).records(), i, close_at(old(self).records(), i, version)[i]);
                    lemma_count_live_bound(old(self).records());
                    assert(self.slots@.take(current_len + 1) =~= close_at(old(self).records(), i, version).push(rec));
                }
                self.commit_delta(0, 1);
                proof {
                    lemma_count_live_push(close_at(old(self).records(), i, version), rec);
                    assert(self.records() =~= close_at(old(self).records(), i, version).push(rec));
                }
                Ok(())
            },
            Ok(None) => {
                self.undo_uncommitted(current_len);
                proof {
                    assert(self.records() =~= old(self).records());
                    assert(self.slots@ =~= old(self).slots@.take(current_len as int));
                }
                Err(CRUDOperationInnerReason::KeyDoesNotExist)
            },
            Err(()) => {
                self.undo_uncommitted(current_len);
                proof {
                    assert(self.records() =~= old(self).records());
                }
                Err(CRUDOperationInnerReason::KeyAlreadyDeleted)
            },
        }
    }
}

} // verus!
