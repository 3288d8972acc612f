use vstd::prelude::*;
use crate::mv_gc::block_tracer::{is_min_key, BlockTrace};
use crate::mv_gc::query_tracer::{newest_reader, TransactionTrace};
use crate::mv_page_model::BlockID;
use crate::mv_record_model::version_info::Version;
use crate::mv_tx_model::transaction_result::SnapShot;

verus! {

/// What garbage collection of a tree keeps track of: the active readers and
/// the pages that died.
pub struct TrackerHandleSt {
    pub live_tx: TransactionTrace,
    pub dead_blocks: BlockTrace,
}

impl TrackerHandleSt {
    /// No reader, no dead page.
    pub fn new() -> (r: Self)
        ensures
            r.live_tx.readers() == Set::<(u64, usize)>::empty(),
            (r.dead_blocks.pages() == Map::<u64, u64>::empty()),
    {
        TrackerHandleSt { live_tx: TransactionTrace::new(), dead_blocks: BlockTrace::new() }
    }

    /// Thread `tid` starts reading at `snap_shot`.
    pub fn on_tx_start(&mut self, snap_shot: SnapShot, tid: usize)
        ensures
            final(self).live_tx.readers() == old(self).live_tx.readers().insert((snap_shot, tid)),
            final(self).dead_blocks == old(self).dead_blocks,
    {
        self.live_tx.on_tx_start(snap_shot, tid)
    }

    /// Thread `tid` is done reading at `snap_shot`.
    pub fn on_tx_completed(&mut self, snap_shot: SnapShot, tid: usize)
        ensures
            final(self).live_tx.readers() == old(self).live_tx.readers().remove((snap_shot, tid)),
            final(self).dead_blocks == old(self).dead_blocks,
    {
        self.live_tx.on_tx_completed(snap_shot, tid);
    }

    /// Page `page` died at `page_version`.
    pub fn register_died_page(&mut self, page_version: Version, page: BlockID)
        ensures
            final(self).dead_blocks.pages() == old(self).dead_blocks.pages().insert(page_version, page),
            final(self).live_tx == old(self).live_tx,
    {
        self.dead_blocks.register_died_page(page_version, page)
    }

    /// Two pages died, in this order.
    pub fn register_died_page_col(&mut self, dead_pages: [(Version, BlockID); 2])
        ensures
            final(self).dead_blocks.pages() == old(self).dead_blocks.pages().insert(
                dead_pages[0].0,
                dead_pages[0].1,
            ).insert(dead_pages[1].0, dead_pages[1].1),
            final(self).live_tx == old(self).live_tx,
    {
        self.dead_blocks.register_died_page_col(dead_pages)
    }

    /// The newest snapshot an active reader holds, `None` without readers.
    pub fn newest_live_si(&self) -> (r: Option<SnapShot>)
        ensures
            r is None <==> self.live_tx.readers() == Set::<(u64, usize)>::empty(),
            r matches Some(s) ==> newest_reader(self.live_tx.readers(), s),
    {
        self.live_tx.peek_max()
    }

    /// Hands out the page that died first, for reuse; `None` when no page
    /// died. Active readers are not consulted.
    pub fn free_block(&mut self) -> (r: Option<BlockID>)
        ensures
            r is None <==> old(self).dead_blocks.pages().dom() == Set::<u64>::empty(),
            r is None ==> final(self).dead_blocks.pages() == old(self).dead_blocks.pages(),
            r matches Some(b) ==> exists|v: u64| {
                &&& is_min_key(old(self).dead_blocks.pages(), v)
                &&& #[trigger] old(self).dead_blocks.pages()[v] == b
                &&& final(self).dead_blocks.pages() == old(self).dead_blocks.pages().remove(v)
            },
            final(self).live_tx == old(self).live_tx,
    {
        match self.dead_blocks.pop_min() {
            Some(s) => Some(s.1),
            None => None,
        }
    }
}

} // verus!
