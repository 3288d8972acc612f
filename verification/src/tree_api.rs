use vstd::prelude::*;
use crate::mv_block::block::geometry_ok;
use crate::mv_crud_model::crud_operation::CRUDOperation;
use crate::mv_crud_model::crud_operation_result::CRUDOperationResult;
use crate::mv_query::dispatch::{read_traced, write_refused, newest_live, write_outcome, LeafWrite};
use crate::mv_record_model::record_point::{Key, RecordPointResult};
use crate::mv_sync::locking_strategy::LockingStrategy;
use crate::mv_sync::version_handle::START_VERSION;
use crate::mv_tree::mvtree::MVTreeSt;
use crate::mv_utils::interval::Interval;

verus! {

/// Entries per index page of the exported tree.
pub const EX_FAN_OUT: usize = 127;

/// Records per leaf page of the exported tree.
pub const EX_N: usize = 127;

/// A key-value tree of `u64` keys and `u64` values behind a plain
/// find / insert / update / remove / scan interface; every call works on
/// the newest snapshot.
pub struct MVBTreeApiExport<const FAN_OUT: usize, const NUM_RECORDS: usize> {
    pub tree: MVTreeSt<FAN_OUT, NUM_RECORDS, u64>,
}

impl<const FAN_OUT: usize, const NUM_RECORDS: usize> MVBTreeApiExport<FAN_OUT, NUM_RECORDS> {
    pub open spec fn wf(self) -> bool {
        &&& self.tree.wf()
        &&& self.tree.version_inv()
    }

    /// The version the interface reads at: the next one the clock hands out.
    pub open spec fn read_version(self) -> u64 {
        self.tree.global_clock.0
    }

    /// An empty tree.
    pub fn init_tree() -> (r: Self)
        requires
            geometry_ok(FAN_OUT, NUM_RECORDS),
        ensures
            r.wf(),
            forall|k: Key, v: u64| #[trigger] r.tree.spec_point_read(k, v) is None,
    {
        MVBTreeApiExport { tree: MVTreeSt::new(LockingStrategy::MonoWriter) }
    }

    /// The value of `key` at the newest snapshot, if it has one.
    pub fn find(&mut self, key: Key) -> (r: Option<u64>)
        requires
            old(self).wf(),
        ensures
            final(self).wf(),
            read_traced(old(self).tree, final(self).tree, old(self).read_version()),
            r == old(self).tree.spec_point_read(key, old(self).read_version()),
    {
        let v = self.tree.current_version();
        match self.tree.dispatch_crud(CRUDOperation::Point(key, v)) {
            CRUDOperationResult::MatchedRecords(result) => {
                if result.len() > 0 {
                    Some(result[0].payload)
                } else {
                    None
                }
            },
            _ => None,
        }
    }

    /// Inserts `value` under `key`; true when it took effect. A snapshot
    /// older than the clock at the call reads as before, and the newest
    /// snapshot now reads `value` for `key`.
    pub fn insert(&mut self, key: Key, value: u64) -> (r: bool)
        requires
            old(self).wf(),
        ensures
            !r ==> write_refused(final(self).tree, LeafWrite::Insert(key, value)),
            final(self).wf(),
            old(self).tree.reads_agree_below(final(self).tree, old(self).read_version()),
            r ==> final(self).read_version() > START_VERSION && final(self).tree.spec_point_read(
                key,
                (final(self).read_version() - 1) as u64,
            ) == Some(value),
            old(self).tree.key_writable(key) ==> r,
            r ==> write_outcome(
                final(self).tree.write_leaf_records(key),
                LeafWrite::Insert(key, value),
                CRUDOperationResult::<u64>::Inserted((final(self).read_version() - 1) as u64),
            ),
    {
        match self.tree.dispatch_crud(CRUDOperation::Insert(key, value)) {
            CRUDOperationResult::Inserted(_) => true,
            _ => false,
        }
    }

    /// Replaces the value of `key` by `value`; true when it took effect.
    /// A snapshot older than the clock at the call reads as before, and the
    /// newest snapshot now reads `value` for `key`.
    pub fn update(&mut self, key: Key, value: u64) -> (r: bool)
        requires
            old(self).wf(),
        ensures
            !r ==> write_refused(final(self).tree, LeafWrite::Update(key, value)) || !newest_live(
                final(self).tree.write_leaf_records(key),
                key,
            ),
            final(self).wf(),
            !old(self).tree.in_place_on() ==> old(self).tree.reads_agree_below(final(self).tree, old(self).read_version()),
            !old(self).tree.in_place_on() && r ==> final(self).read_version() > START_VERSION && final(self).tree.spec_point_read(
                key,
                (final(self).read_version() - 1) as u64,
            ) == Some(value),
            old(self).tree.key_writable(key) && !old(self).tree.in_place_on() ==> (r <==> newest_live(old(self).tree.write_leaf_records(key), key)),
            !old(self).tree.in_place_on() && r ==> write_outcome(
                final(self).tree.write_leaf_records(key),
                LeafWrite::Update(key, value),
                CRUDOperationResult::<u64>::Updated((final(self).read_version() - 1) as u64),
            ),
    {
        match self.tree.dispatch_crud(CRUDOperation::Update(key, value)) {
            CRUDOperationResult::Updated(_) => true,
            _ => false,
        }
    }

    /// Removes `key`; true when it took effect: its newest record is then
    /// closed at the last version handed out. A snapshot older than the
    /// clock at the call reads as before.
    pub fn remove(&mut self, key: Key) -> (r: bool)
        requires
            old(self).wf(),
        ensures
            !r ==> write_refused(final(self).tree, LeafWrite::Delete(key)) || !newest_live(
                final(self).tree.write_leaf_records(key),
                key,
            ),
            final(self).wf(),
            old(self).tree.reads_agree_below(final(self).tree, old(self).read_version()),
            old(self).tree.key_writable(key) ==> (r <==> newest_live(old(self).tree.write_leaf_records(key), key)),
            r ==> final(self).read_version() > START_VERSION && write_outcome(
                final(self).tree.write_leaf_records(key),
                LeafWrite::Delete(key),
                CRUDOperationResult::<u64>::Deleted((final(self).read_version() - 1) as u64),
            ),
    {
        match self.tree.dispatch_crud(CRUDOperation::Delete(key)) {
            CRUDOperationResult::Deleted(_) => true,
            _ => false,
        }
    }

    /// The records a range read of the `scan_sz` keys from `key` on answers
    /// at the newest snapshot.
    pub fn scan(&mut self, key: Key, scan_sz: i32) -> (r: Vec<RecordPointResult<u64>>)
        requires
            old(self).wf(),
            scan_sz >= 0,
            key as int + scan_sz as int - 1 >= 0,
            key as int + scan_sz as int - 1 <= u64::MAX,
        ensures
            final(self).wf(),
            read_traced(old(self).tree, final(self).tree, old(self).read_version()),
            r@ == old(self).tree.spec_range_read(
                Interval { lower: key, upper: (key + scan_sz - 1) as u64 },
                old(self).read_version(),
            ),
    {
        let v = self.tree.current_version();
        let key_end = if scan_sz == 0 { key - 1 } else { key + (scan_sz as u64 - 1) };
        match self.tree.dispatch_crud(CRUDOperation::Range(Interval::new(key, key_end), v)) {
            CRUDOperationResult::MatchedRecords(result) => result,
            _ => Vec::new(),
        }
    }
}

} // verus!
