use vstd::prelude::*;
use crate::mv_record_model::record_point::{Key, RecordPoint, RecordPointResult};
use crate::mv_record_model::version_info::{Version, VersionInfo};
use crate::mv_sync::smart_cell::{
    active_len, dead_len, from_active_dead, from_len, spec_active_len, spec_dead_len, Active,
    Dead, LenP, lemma_len_roundtrip,
};

verus! {

/// Index of the last record among `recs` whose key is `key`.
pub open spec fn last_index_of_key<P>(recs: Seq<RecordPoint<P>>, key: Key) -> Option<int>
    decreases recs.len(),
{
    if recs.len() == 0 {
        None
    } else if recs.last().key == key {
        Some(recs.len() - 1)
    } else {
        last_index_of_key(recs.drop_last(), key)
    }
}

/// True when slot `i` of `recs` is what a lookup of `key` at snapshot `version`
/// answers with `res`: a visible record with that key and no visible one with
/// that key after it (`rev`) or before it (`!rev`).
pub open spec fn is_answer<P>(
    recs: Seq<RecordPoint<P>>,
    rev: bool,
    i: int,
    key: Key,
    version: Version,
    res: RecordPointResult<P>,
) -> bool {
    &&& is_hit(recs, i, key, version)
    &&& res == (RecordPointResult { key, payload: recs[i].payload })
    &&& if rev {
        forall|j: int| i < j < recs.len() ==> !is_hit(recs, j, key, version)
    } else {
        forall|j: int| 0 <= j < i ==> !is_hit(recs, j, key, version)
    }
}

/// True when the record at `i` has key `key` and is visible at snapshot `version`.
pub open spec fn is_hit<P>(recs: Seq<RecordPoint<P>>, i: int, key: Key, version: Version) -> bool {
    &&& 0 <= i < recs.len()
    &&& recs[i].key == key
    &&& recs[i].version.spec_matches(version)
}

pub proof fn lemma_last_index_of_key<P>(recs: Seq<RecordPoint<P>>, key: Key)
    ensures
        match last_index_of_key(recs, key) {
            None => forall|j: int| 0 <= j < recs.len() ==> recs[j].key != key,
            Some(i) => 0 <= i < recs.len() && recs[i].key == key
                && forall|j: int| i < j < recs.len() ==> recs[j].key != key,
        },
    decreases recs.len(),
{
    if recs.len() > 0 && recs.last().key != key {
        let rest = recs.drop_last();
        lemma_last_index_of_key(rest, key);
        assert forall|j: int| 0 <= j < rest.len() implies rest[j] == recs[j] by {}
    }
}

/// A leaf page of the multi-version tree. Records are appended; the packed
/// length word says how many of the stored slots are committed (live + dead).
/// Slots past the committed prefix are written but not yet published.
pub struct LeafPage<const NUM_RECORDS: usize, P> {
    pub len: LenP,
    pub slots: Vec<RecordPoint<P>>,
}

impl<const NUM_RECORDS: usize, P: Copy> LeafPage<NUM_RECORDS, P> {
    /// Number of committed slots (live plus dead).
    pub open spec fn committed_len(self) -> int {
        spec_active_len(self.len) + spec_dead_len(self.len)
    }

    pub open spec fn spec_active(self) -> int {
        spec_active_len(self.len)
    }

    pub open spec fn spec_dead(self) -> int {
        spec_dead_len(self.len)
    }

    /// The committed records, oldest first.
    pub open spec fn records(self) -> Seq<RecordPoint<P>> {
        self.slots@.take(self.committed_len())
    }

    pub open spec fn wf(self) -> bool {
        &&& NUM_RECORDS < 0x10000
        &&& self.committed_len() <= self.slots@.len()
        &&& self.slots@.len() <= NUM_RECORDS
    }

    /// An empty page.
    pub fn new() -> (r: Self)
        requires
            NUM_RECORDS < 0x10000,
        ensures
            r.wf(),
            r.slots@.len() == 0,
            r.spec_active() == 0,
            r.spec_dead() == 0,
    {
        proof {
            assert(spec_active_len(0) == 0 && spec_dead_len(0) == 0);
        }
        LeafPage { len: 0, slots: Vec::new() }
    }

    /// Number of committed records (live plus dead).
    pub fn len(&self) -> (r: usize)
        ensures
            r == self.committed_len(),
    {
        (active_len(self.len) + dead_len(self.len)) as usize
    }

    pub fn is_empty(&self) -> (r: bool)
        ensures
            r == (self.committed_len() == 0),
    {
        self.len() == 0
    }

    pub fn is_full(&self) -> (r: bool)
        ensures
            r == (self.committed_len() == NUM_RECORDS),
    {
        self.len() == NUM_RECORDS
    }

    /// Live and dead counts of the committed records.
    pub fn active_dead_count(&self) -> (r: (Active, Dead))
        ensures
            r.0 == self.spec_active(),
            r.1 == self.spec_dead(),
    {
        from_len(self.len)
    }

    /// Writes `record` into slot `index` without publishing it.
    pub fn push_uncommitted(&mut self, record: RecordPoint<P>, index: usize)
        requires
            old(self).wf(),
            index <= old(self).slots@.len(),
            index < NUM_RECORDS,
        ensures
            final(self).wf(),
            final(self).len == old(self).len,
            index == old(self).slots@.len() ==> final(self).slots@ == old(self).slots@.push(record),
            index < old(self).slots@.len() ==> final(self).slots@ == old(self).slots@.update(
                index as int,
                record,
            ),
    {
        if index == self.slots.len() {
            self.slots.push(record);
        } else {
            self.slots.set(index, record);
        }
    }

    /// Publishes a change of the live and dead counts.
    pub fn commit_delta(&mut self, active_delta: i32, dead_delta: i32)
        requires
            old(self).wf(),
            0 <= old(self).spec_active() + active_delta < 0x10000,
            0 <= old(self).spec_dead() + dead_delta < 0x10000,
            old(self).spec_active() + active_delta + old(self).spec_dead() + dead_delta
                <= old(self).slots@.len(),
        ensures
            final(self).wf(),
            final(self).slots@ == old(self).slots@,
            final(self).spec_active() == old(self).spec_active() + active_delta,
            final(self).spec_dead() == old(self).spec_dead() + dead_delta,
    {
        let len = self.len;
        let active = active_len(len) as i32 + active_delta;
        let dead = dead_len(len) as i32 + dead_delta;
        let packed = from_active_dead(active as Active, dead as Dead);
        proof {
            lemma_len_roundtrip(active as u32, dead as u32);
        }
        self.len = packed as LenP;
    }

    /// Releases the unpublished slots from `index` on.
    pub fn undo_uncommitted(&mut self, index: usize)
        requires
            old(self).wf(),
            old(self).committed_len() <= index < old(self).slots@.len(),
        ensures
            final(self).wf(),
            final(self).len == old(self).len,
            final(self).slots@ == old(self).slots@.take(index as int),
            final(self).records() == old(self).records(),
    {
        self.slots.truncate(index);
        proof {
            assert(self.records() =~= old(self).records());
        }
    }

    /// Empties the page so that it can hold a fresh node.
    pub fn on_reuse(&mut self)
        requires
            old(self).wf(),
        ensures
            final(self).wf(),
            final(self).slots@.len() == 0,
            final(self).spec_active() == 0,
            final(self).spec_dead() == 0,
    {
        proof {
            assert(spec_active_len(0) == 0 && spec_dead_len(0) == 0);
        }
        self.len = 0;
        self.slots.clear();
    }

    /// Fills an empty page with `records`, all of them live.
    pub fn bulk_push(&mut self, records: Vec<RecordPoint<P>>)
        requires
            old(self).wf(),
            old(self).committed_len() == 0,
            records@.len() <= NUM_RECORDS,
        ensures
            final(self).wf(),
            final(self).slots@ == records@,
            final(self).records() == records@,
            final(self).spec_active() == records@.len(),
            final(self).spec_dead() == 0,
    {
        let n = records.len();
        let packed = from_active_dead(n as Active, 0);
        proof {
            lemma_len_roundtrip(n as u32, 0);
        }
        self.slots = records;
        self.len = packed as LenP;
        proof {
            assert(self.records() =~= records@);
        }
    }

    /// Closes, at `del`, the lifespan of the newest committed record with key
    /// `key`, searching from the newest slot down. `Ok(None)`: no such record
    /// (an empty page has none); `Err(())`: it was already closed. No other
    /// slot is touched.
    pub fn delete(&mut self, key: Key, del: Version) -> (r: Result<Option<()>, ()>)
        requires
            old(self).wf(),
        ensures
            final(self).wf(),
            final(self).len == old(self).len,
            match last_index_of_key(old(self).records(), key) {
                None => r == Ok::<Option<()>, ()>(None) && final(self).slots@ == old(self).slots@,
                Some(i) => {
                    let v = old(self).slots@[i].version;
                    if v.delete_version is None {
                        &&& r == Ok::<Option<()>, ()>(Some(()))
                        &&& final(self).slots@ == old(self).slots@.update(
                            i,
                            RecordPoint {
                                version: VersionInfo {
                                    insert_version: v.insert_version,
                                    delete_version: Some(del),
                                },
                                ..old(self).slots@[i]
                            },
                        )
                    } else {
                        r == Err::<Option<()>, ()>(()) && final(self).slots@ == old(self).slots@
                    }
                },
            },
    {
        let n = self.len();
        let mut i = n;
        proof {
            lemma_last_index_of_key(self.records(), key);
        }
        while i > 0
            invariant
                i <= n,
                n == old(self).committed_len(),
                *self == *old(self),
                old(self).wf(),
                forall|j: int| i <= j < n ==> old(self).slots@[j].key != key,
            decreases i,
        {
            let rec = self.slots[i - 1];
            if rec.key == key {
                proof {
                    lemma_last_index_of_key(old(self).records(), key);
                    assert(old(self).records()[i - 1] == old(self).slots@[i - 1]);
                    assert(last_index_of_key(old(self).records(), key) == Some((i - 1) as int));
                }
                let mut updated = rec;
                let ok = updated.version.delete(del);
                if ok {
                    self.slots.set(i - 1, updated);
                    proof {
                        assert(old(self).records()[i - 1] == old(self).slots@[i - 1]);
                    }
                    return Ok(Some(()));
                } else {
                    return Err(());
                }
            }
            proof {
                assert(old(self).records()[i - 1] == old(self).slots@[i - 1]);
            }
            i = i - 1;
        }
        proof {
            lemma_last_index_of_key(old(self).records(), key);
        }
        Ok(None)
    }

    /// Opens a cursor over the committed records.
    pub fn as_records(&self) -> (r: RecordPointIter)
        requires
            self.wf(),
        ensures
            r.curr == 0,
            r.len == self.committed_len(),
            !r.rev,
    {
        RecordPointIter { curr: 0, len: self.len() as isize, rev: false }
    }

    /// Opens a cursor over the committed records and the one unpublished slot
    /// that follows them.
    pub fn as_records_uncommitted(&self) -> (r: RecordPointIter)
        requires
            self.wf(),
        ensures
            r.curr == 0,
            r.len == self.committed_len() + 1,
            !r.rev,
    {
        RecordPointIter { curr: 0, len: (1 + self.len()) as isize, rev: false }
    }
}

/// A cursor over the slots of a leaf page. It walks forward from `curr` up to
/// `len`, or, once reversed, backward from `curr` down to slot 0.
pub struct RecordPointIter {
    pub curr: isize,
    pub len: isize,
    pub rev: bool,
}

impl RecordPointIter {
    /// The same cursor, walking backward.
    pub fn reverse(self) -> (r: Self)
        ensures
            r.curr == self.curr,
            r.len == self.len,
            r.rev,
    {
        RecordPointIter { rev: true, ..self }
    }

    /// The slot the cursor hands out next, if any.
    pub open spec fn spec_next_index(self) -> Option<int> {
        if self.rev {
            if self.curr >= 0 { Some(self.curr as int) } else { None }
        } else {
            if self.curr < self.len { Some(self.curr as int) } else { None }
        }
    }

    /// Hands out the record at the cursor and moves the cursor on.
    pub fn next<const NUM_RECORDS: usize, P: Copy>(&mut self, page: &LeafPage<NUM_RECORDS, P>) -> (r:
        Option<RecordPoint<P>>)
        requires
            page.wf(),
            match old(self).spec_next_index() {
                Some(i) => 0 <= i < page.slots@.len(),
                None => true,
            },
        ensures
            match old(self).spec_next_index() {
                None => r is None && *final(self) == *old(self),
                Some(i) => {
                    &&& r == Some(page.slots@[i])
                    &&& final(self).len == old(self).len
                    &&& final(self).rev == old(self).rev
                    &&& final(self).curr == if old(self).rev { i - 1 } else { i + 1 }
                },
            },
    {
        if self.rev {
            if self.curr >= 0 {
                let index = self.curr as usize;
                let result = page.slots[index];
                self.curr = self.curr - 1;
                return Some(result);
            }
        } else {
            if self.curr < self.len {
                let index = self.curr as usize;
                let result = page.slots[index];
                self.curr = self.curr + 1;
                return Some(result);
            }
        }
        None
    }

    /// Key of slot `index`.
    pub fn key<const NUM_RECORDS: usize, P: Copy>(&self, page: &LeafPage<NUM_RECORDS, P>, index: usize) -> (r: Key)
        requires
            index < page.slots@.len(),
        ensures
            r == page.slots@[index as int].key,
    {
        page.slots[index].key
    }

    /// Lifespan of slot `index`.
    pub fn version<const NUM_RECORDS: usize, P: Copy>(&self, page: &LeafPage<NUM_RECORDS, P>, index: usize) -> (r:
        VersionInfo)
        requires
            index < page.slots@.len(),
        ensures
            r == page.slots@[index as int].version,
    {
        page.slots[index].version
    }

    /// Payload of slot `index`.
    pub fn payload<const NUM_RECORDS: usize, P: Copy>(&self, page: &LeafPage<NUM_RECORDS, P>, index: usize) -> (r: P)
        requires
            index < page.slots@.len(),
        ensures
            r == page.slots@[index as int].payload,
    {
        page.slots[index].payload
    }

    /// Closes the lifespan of slot `index` at `del_version`; false when it was
    /// already closed.
    pub fn delete<const NUM_RECORDS: usize, P: Copy>(
        &self,
        page: &mut LeafPage<NUM_RECORDS, P>,
        index: usize,
        del_version: Version,
    ) -> (r: bool)
        requires
            old(page).wf(),
            index < old(page).slots@.len(),
        ensures
            final(page).wf(),
            final(page).len == old(page).len,
            r == old(page).slots@[index as int].version.delete_version is None,
            r ==> final(page).slots@ == old(page).slots@.update(
                index as int,
                RecordPoint {
                    version: VersionInfo {
                        insert_version: old(page).slots@[index as int].version.insert_version,
                        delete_version: Some(del_version),
                    },
                    ..old(page).slots@[index as int]
                },
            ),
            !r ==> final(page).slots@ == old(page).slots@,
    {
        let mut rec = page.slots[index];
        let ok = rec.version.delete(del_version);
        if ok {
            page.slots.set(index, rec);
        }
        ok
    }

    /// Sets the insert version of slot `index` to `commit`.
    pub fn commit<const NUM_RECORDS: usize, P: Copy>(
        &self,
        page: &mut LeafPage<NUM_RECORDS, P>,
        index: usize,
        commit: Version,
    )
        requires
            old(page).wf(),
            index < old(page).slots@.len(),
        ensures
            final(page).wf(),
            final(page).len == old(page).len,
            final(page).slots@ == old(page).slots@.update(
                index as int,
                RecordPoint {
                    version: VersionInfo {
                        insert_version: commit,
                        delete_version: old(page).slots@[index as int].version.delete_version,
                    },
                    ..old(page).slots@[index as int]
                },
            ),
    {
        let mut rec = page.slots[index];
        rec.version.insert_version = commit;
        page.slots.set(index, rec);
    }

    /// The record with key `key` visible at snapshot `version`: among the
    /// committed records of `page`, the first such one, or the last one for a
    /// reversed cursor.
    pub fn find_key_version<const NUM_RECORDS: usize, P: Copy>(
        &self,
        page: &LeafPage<NUM_RECORDS, P>,
        key: Key,
        version: Version,
    ) -> (r: Option<RecordPointResult<P>>)
        requires
            page.wf(),
        ensures
            r is None ==> forall|j: int| !is_hit(page.records(), j, key, version),
            r is Some ==> exists|i: int| is_answer(page.records(), self.rev, i, key, version, r->0),
    {
        let n = page.len();
        let ghost recs = page.records();
        let rev = self.rev;
        let mut found: Option<usize> = None;
        if rev {
            let mut i = n;
            while i > 0
                invariant_except_break
                    found is None,
                invariant
                    i <= n,
                    n == recs.len(),
                    recs == page.records(),
                    page.wf(),
                    forall|j: int| i <= j < n ==> !is_hit(recs, j, key, version),
                ensures
                    found is None ==> forall|j: int| 0 <= j < n ==> !is_hit(recs, j, key, version),
                    found matches Some(k) ==> k < n && is_hit(recs, k as int, key, version)
                        && forall|j: int| k < j < n ==> !is_hit(recs, j, key, version),
                decreases i,
            {
                let rec = page.slots[i - 1];
                proof { assert(recs[i - 1] == rec); }
                if rec.key == key && rec.version.matches(version) {
                    found = Some(i - 1);
                    break;
                }
                i = i - 1;
            }
        } else {
            let mut i: usize = 0;
            while i < n
                invariant_except_break
                    found is None,
                invariant
                    i <= n,
                    n == recs.len(),
                    recs == page.records(),
                    page.wf(),
                    forall|j: int| 0 <= j < i ==> !is_hit(recs, j, key, version),
                ensures
                    found is None ==> forall|j: int| 0 <= j < n ==> !is_hit(recs, j, key, version),
                    found matches Some(k) ==> k < n && is_hit(recs, k as int, key, version)
                        && forall|j: int| 0 <= j < k ==> !is_hit(recs, j, key, version),
                decreases n - i,
            {
                let rec = page.slots[i];
                proof { assert(recs[i as int] == rec); }
                if rec.key == key && rec.version.matches(version) {
                    found = Some(i);
                    break;
                }
                i = i + 1;
            }
        }
        match found {
            None => {
                proof {
                    assert forall|j: int| !is_hit(page.records(), j, key, version) by {
                        if 0 <= j < n {
                        }
                    }
                }
                None
            },
            Some(k) => {
                let rec = page.slots[k];
                let res = RecordPointResult::new(rec.key, rec.payload);
                proof {
                    assert(recs[k as int] == rec);
                    assert(is_answer(page.records(), self.rev, k as int, key, version, res));
                }
                let r = Some(res);
                proof {
                    assert(r->0 == res);
                    assert(is_answer(page.records(), self.rev, k as int, key, version, r->0));
                    assert(exists|i: int| is_answer(page.records(), self.rev, i, key, version, r->0));
                }
                r
            },
        }
    }
}

} // verus!
