use vstd::prelude::*;
use crate::mv_gc::tracker_handle::TrackerHandleSt;
use crate::mv_page_model::BlockID;
use crate::mv_record_model::version_info::Version;

verus! {

/// Size limits of the pages of a tree, whether updates may rewrite a record
/// in place, and the garbage-collection tracker the dead pages go to.
pub struct BlockAllocManager<const FAN_OUT: usize, const NUM_RECORDS: usize> {
    pub update_in_place: bool,
    pub tracker: Option<TrackerHandleSt>,
}

impl<const FAN_OUT: usize, const NUM_RECORDS: usize> BlockAllocManager<FAN_OUT, NUM_RECORDS> {
    pub fn new() -> (r: Self)
        ensures
            !r.update_in_place,
            r.tracker is None,
    {
        BlockAllocManager { update_in_place: false, tracker: None }
    }

    /// Nothing is counted of allocations and reuses; kept for callers.
    pub fn reset_alloc_reuse_counts(&self) {
    }

    /// The tracker, if one is set.
    pub fn tracker(&self) -> (r: &Option<TrackerHandleSt>)
        ensures
            *r == self.tracker,
    {
        &self.tracker
    }

    /// Sets (or, with `None`, drops) the tracker.
    pub fn pass_aux_tx_tracker(&mut self, db_tracker: Option<TrackerHandleSt>)
        ensures
            final(self).tracker == db_tracker,
            final(self).update_in_place == old(self).update_in_place,
    {
        self.tracker = db_tracker;
    }

    /// Drops the tracker.
    pub fn del_aux(&mut self)
        ensures
            final(self).tracker is None,
            final(self).update_in_place == old(self).update_in_place,
    {
        self.tracker = None;
    }

    /// Page `dead_p` died at `dead_v`: the tracker, if any, records it.
    pub fn register_dead(&mut self, dead_v: Version, dead_p: BlockID)
        ensures
            final(self).update_in_place == old(self).update_in_place,
            old(self).tracker is None ==> final(self).tracker is None,
            old(self).tracker matches Some(t) ==> final(self).tracker matches Some(u) && u.live_tx == t.live_tx
                && u.dead_blocks.pages() == t.dead_blocks.pages().insert(dead_v, dead_p),
    {
        match self.tracker.take() {
            Some(mut t) => {
                t.register_died_page(dead_v, dead_p);
                self.tracker = Some(t);
            },
            None => {},
        }
    }

    /// `next` is this manager after `f` was applied to the readers of its
    /// tracker, if it has one; nothing else changed.
    pub open spec fn readers_moved(self, next: Self, f: spec_fn(Set<(u64, usize)>) -> Set<(u64, usize)>) -> bool {
        &&& next.update_in_place == self.update_in_place
        &&& self.tracker is None ==> next.tracker is None
        &&& self.tracker matches Some(t) ==> (next.tracker matches Some(u) && u.dead_blocks == t.dead_blocks
            && u.live_tx.readers() == f(t.live_tx.readers()))
    }

    /// Reader `tid` starts reading at `snapshot`: the tracker, if any, records it.
    pub fn register_reader(&mut self, snapshot: Version, tid: usize)
        ensures
            old(self).readers_moved(*final(self), |s: Set<(u64, usize)>| s.insert((snapshot, tid))),
    {
        match self.tracker.take() {
            Some(mut t) => {
                t.on_tx_start(snapshot, tid);
                self.tracker = Some(t);
            },
            None => {},
        }
    }

    /// Reader `tid` is done reading at `snapshot`: the tracker, if any,
    /// forgets it.
    pub fn release_reader(&mut self, snapshot: Version, tid: usize)
        ensures
            old(self).readers_moved(*final(self), |s: Set<(u64, usize)>| s.remove((snapshot, tid))),
    {
        match self.tracker.take() {
            Some(mut t) => {
                t.on_tx_completed(snapshot, tid);
                self.tracker = Some(t);
            },
            None => {},
        }
    }

    /// `next` is this manager after the pages `d0` and then `d1` were handed
    /// to its tracker, if it has one.
    pub open spec fn records_dead_col(self, next: Self, d0: (Version, BlockID), d1: (Version, BlockID)) -> bool {
        &&& next.update_in_place == self.update_in_place
        &&& self.tracker is None ==> next.tracker is None
        &&& self.tracker matches Some(t) ==> (next.tracker matches Some(u) && u.live_tx == t.live_tx
            && u.dead_blocks.pages() == t.dead_blocks.pages().insert(d0.0, d0.1).insert(d1.0, d1.1))
    }

    /// Two pages died, in this order: the tracker, if any, records them.
    pub fn register_dead_col(&mut self, dead: [(Version, BlockID); 2])
        ensures
            final(self).update_in_place == old(self).update_in_place,
            old(self).tracker is None ==> final(self).tracker is None,
            old(self).tracker matches Some(t) ==> final(self).tracker matches Some(u) && u.live_tx == t.live_tx
                && u.dead_blocks.pages() == t.dead_blocks.pages().insert(dead[0].0, dead[0].1).insert(
                dead[1].0,
                dead[1].1,
            ),
            old(self).records_dead_col(*final(self), dead[0], dead[1]),
    {
        match self.tracker.take() {
            Some(mut t) => {
                t.register_died_page_col(dead);
                self.tracker = Some(t);
            },
            None => {},
        }
    }

    pub fn has_update_in_place(&self) -> (r: bool)
        ensures
            r == self.update_in_place,
    {
        self.update_in_place
    }

    pub fn set_update_in_place(&mut self, update_in_place: bool)
        ensures
            final(self).update_in_place == update_in_place,
            final(self).tracker == old(self).tracker,
    {
        self.update_in_place = update_in_place;
    }

    /// Slots reserved for a leaf.
    pub fn allocation_leaf(&self) -> (r: usize)
        ensures
            r == NUM_RECORDS,
    {
        NUM_RECORDS
    }

    /// Slots reserved for an index page.
    pub fn allocation_directory(&self) -> (r: usize)
        ensures
            r == FAN_OUT,
    {
        FAN_OUT
    }

    pub fn max_records() -> (r: usize)
        ensures
            r == NUM_RECORDS,
    {
        NUM_RECORDS
    }

    /// Records (live and dead) at which a leaf overflows.
    pub fn overflow_records_count() -> (r: usize)
        ensures
            r == NUM_RECORDS,
    {
        Self::max_records()
    }

    pub fn max_keys() -> (r: usize)
        ensures
            r == FAN_OUT,
    {
        FAN_OUT
    }

    /// Entries (live and dead) at which an index page overflows.
    pub fn overflow_keys_count() -> (r: usize)
        requires
            FAN_OUT >= 1,
        ensures
            r == FAN_OUT - 1,
    {
        Self::max_keys() - 1
    }
}

} // verus!
