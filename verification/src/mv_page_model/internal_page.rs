use vstd::prelude::*;
use crate::mv_page_model::BlockID;
use crate::mv_query::time_matcher::{
    lemma_mark_obsolete, spec_obsolete, spec_plain, TimeMatcher, OBSOLETE_VERSION_MARK,
};
use crate::mv_record_model::version_info::Version;
use crate::mv_utils::interval::Interval;

verus! {

/// Number of index entries among `versions` whose obsolete mark is clear.
pub open spec fn count_active(versions: Seq<Version>) -> nat
    decreases versions.len(),
{
    if versions.len() == 0 {
        0
    } else {
        count_active(versions.drop_last()) + if spec_obsolete(versions.last()) { 0nat } else { 1nat }
    }
}

pub proof fn lemma_count_active_bound(versions: Seq<Version>)
    ensures
        count_active(versions) <= versions.len(),
    decreases versions.len(),
{
    if versions.len() > 0 {
        lemma_count_active_bound(versions.drop_last());
    }
}

/// An index page: each entry routes a key range, valid from a version on, to
/// a child block. An entry whose version carries the obsolete mark has been
/// superseded by later entries.
pub struct InternalPage<const FAN_OUT: usize> {
    pub key_interval_region: Vec<Interval>,
    pub version_region: Vec<Version>,
    pub pointer_region: Vec<BlockID>,
}

impl<const FAN_OUT: usize> InternalPage<FAN_OUT> {
    pub open spec fn wf(self) -> bool {
        &&& self.key_interval_region@.len() == self.version_region@.len()
        &&& self.version_region@.len() == self.pointer_region@.len()
        &&& self.version_region@.len() <= FAN_OUT
    }

    pub open spec fn spec_len(self) -> int {
        self.version_region@.len() as int
    }

    pub fn new() -> (r: Self)
        ensures
            r.wf(),
            r.spec_len() == 0,
    {
        InternalPage {
            key_interval_region: Vec::new(),
            version_region: Vec::new(),
            pointer_region: Vec::new(),
        }
    }

    /// Writes an entry into slot `index` (appending when `index` is the
    /// current length).
    pub fn push_uncommitted(
        &mut self,
        key_interval: Interval,
        version: Version,
        ptr: BlockID,
        index: usize,
    )
        requires
            old(self).wf(),
            index <= old(self).spec_len(),
            index < FAN_OUT,
        ensures
            final(self).wf(),
            index == old(self).spec_len() ==> {
                &&& final(self).key_interval_region@ == old(self).key_interval_region@.push(key_interval)
                &&& final(self).version_region@ == old(self).version_region@.push(version)
                &&& final(self).pointer_region@ == old(self).pointer_region@.push(ptr)
            },
            index < old(self).spec_len() ==> {
                &&& final(self).key_interval_region@ == old(self).key_interval_region@.update(index as int, key_interval)
                &&& final(self).version_region@ == old(self).version_region@.update(index as int, version)
                &&& final(self).pointer_region@ == old(self).pointer_region@.update(index as int, ptr)
            },
    {
        if index == self.version_region.len() {
            self.key_interval_region.push(key_interval);
            self.version_region.push(version);
            self.pointer_region.push(ptr);
        } else {
            self.key_interval_region.set(index, key_interval);
            self.version_region.set(index, version);
            self.pointer_region.set(index, ptr);
        }
    }

    /// Releases every entry: the page is emptied for reuse.
    pub fn on_reuse(&mut self)
        ensures
            final(self).wf(),
            final(self).spec_len() == 0,
    {
        self.key_interval_region.clear();
        self.version_region.clear();
        self.pointer_region.clear();
    }

    /// Fills the page with the given entries; returns how many there are.
    pub fn bulk_push(&mut self, entries: Vec<(Interval, Version, BlockID)>) -> (r: usize)
        requires
            entries@.len() <= FAN_OUT,
        ensures
            final(self).wf(),
            r == entries@.len(),
            final(self).spec_len() == entries@.len(),
            forall|i: int| 0 <= i < entries@.len() ==> {
                &&& #[trigger] final(self).key_interval_region@[i] == entries@[i].0
                &&& final(self).version_region@[i] == entries@[i].1
                &&& final(self).pointer_region@[i] == entries@[i].2
            },
    {
        self.key_interval_region.clear();
        self.version_region.clear();
        self.pointer_region.clear();
        let mut i: usize = 0;
        while i < entries.len()
            invariant
                i <= entries@.len() <= FAN_OUT,
                self.wf(),
                self.spec_len() == i,
                forall|j: int| 0 <= j < i ==> {
                    &&& #[trigger] self.key_interval_region@[j] == entries@[j].0
                    &&& self.version_region@[j] == entries@[j].1
                    &&& self.pointer_region@[j] == entries@[j].2
                },
            decreases entries@.len() - i,
        {
            let (k, v, p) = entries[i];
            self.key_interval_region.push(k);
            self.version_region.push(v);
            self.pointer_region.push(p);
            i = i + 1;
        }
        entries.len()
    }

    pub fn get_key(&self, index: usize) -> (r: Interval)
        requires
            self.wf(),
            index < self.spec_len(),
        ensures
            r == self.key_interval_region@[index as int],
    {
        self.key_interval_region[index]
    }

    pub fn get_version(&self, index: usize) -> (r: Version)
        requires
            self.wf(),
            index < self.spec_len(),
        ensures
            r == self.version_region@[index as int],
    {
        self.version_region[index]
    }

    pub fn get_pointer(&self, index: usize) -> (r: BlockID)
        requires
            self.wf(),
            index < self.spec_len(),
        ensures
            r == self.pointer_region@[index as int],
    {
        self.pointer_region[index]
    }

    /// The child of the newest of the first `len` entries.
    pub fn last_child(&self, len: usize) -> (r: BlockID)
        requires
            self.wf(),
            0 < len <= self.spec_len(),
        ensures
            r == self.pointer_region@[len - 1],
    {
        self.get_pointer(len - 1)
    }

    /// Numbers of active and of obsolete entries among the first `len`.
    pub fn active_dead(&self, len: usize) -> (r: (usize, usize))
        requires
            self.wf(),
            len <= self.spec_len(),
        ensures
            r.0 == count_active(self.version_region@.take(len as int)),
            r.0 + r.1 == len,
    {
        let mut active: usize = 0;
        let mut dead: usize = 0;
        let mut i: usize = 0;
        while i < len
            invariant
                i <= len <= self.spec_len(),
                self.wf(),
                active == count_active(self.version_region@.take(i as int)),
                active + dead == i,
            decreases len - i,
        {
            let v = self.version_region[i];
            proof {
                assert(self.version_region@.take(i + 1).drop_last() =~= self.version_region@.take(i as int));
            }
            if v.is_obsolete() {
                dead = dead + 1;
            } else {
                active = active + 1;
            }
            i = i + 1;
        }
        (active, dead)
    }

    /// Sets the obsolete mark of entry `index`.
    pub fn mark_version_obsolete(&mut self, index: usize)
        requires
            old(self).wf(),
            index < old(self).spec_len(),
        ensures
            final(self).wf(),
            final(self).key_interval_region@ == old(self).key_interval_region@,
            final(self).pointer_region@ == old(self).pointer_region@,
            final(self).version_region@ == old(self).version_region@.update(
                index as int,
                old(self).version_region@[index as int] | 0x8000_0000_0000_0000u64,
            ),
            spec_obsolete(final(self).version_region@[index as int]),
            spec_plain(final(self).version_region@[index as int]) == spec_plain(
                old(self).version_region@[index as int],
            ),
    {
        let v = self.version_region[index];
        proof {
            lemma_mark_obsolete(v);
        }
        self.version_region.set(index, v | OBSOLETE_VERSION_MARK);
    }
}

} // verus!
