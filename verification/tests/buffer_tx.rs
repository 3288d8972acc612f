use std::collections::VecDeque;

use cmvbt::mv_buffer::block_buffer::{
    ClockReplacer, EpochTable, Frame, NodeType, OlcLatch, EMPTY_PAGE, EPOCH_SENTINEL, MAX_THREADS, PAGE_HEADER_DEAD_OFF,
    PAGE_HEADER_LIVE_OFF, PAGE_HEADER_TYPE_OFF, PAGE_SIZE,
};
use cmvbt::mv_crud_model::crud_operation::CRUDOperation;
use cmvbt::mv_crud_model::crud_operation_result::{CRUDOperationInnerReason, CRUDOperationResult};
use cmvbt::mv_gc::tx_tracer::NullValue;
use cmvbt::mv_sync::smart_cell::{active_len, dead_len, from_active_dead};
use cmvbt::mv_test::{
    dec_key, format_insertions, inc_key, rnd_str, rnd_str_vec, PayloadIndirection, PAYLOAD_ATTR_STR_COUNT,
    PAYLOAD_STR_LEN_MAX, PAYLOAD_STR_LEN_MIN,
};
use cmvbt::mv_tx_model::transaction::{AtomicTransaction, Transaction};
use cmvbt::mv_tx_model::transaction_result::{snapshot_from_atomic_tx_result, snapshot_from_tx_result};
use cmvbt::mv_utils::interval::Interval;

#[test]
fn node_type_bytes_roundtrip() {
    assert_eq!(NodeType::Internal.as_u8(), 0);
    assert_eq!(NodeType::Leaf.as_u8(), 1);
    assert_eq!(NodeType::Root.as_u8(), 2);
    assert!(matches!(NodeType::try_from(0), Ok(NodeType::Internal)));
    assert!(matches!(NodeType::try_from(1), Ok(NodeType::Leaf)));
    assert!(matches!(NodeType::try_from(2), Ok(NodeType::Root)));
    assert!(NodeType::try_from(3).is_err());
}

#[test]
fn olc_latch_locks_only_an_even_seen_version() {
    let mut l = OlcLatch::new();
    assert_eq!(l.version(), 0);
    assert!(!l.try_write_lock(2));
    assert!(l.try_write_lock(0));
    assert_eq!(l.version(), 1);
    assert!(!l.try_write_lock(1));
    l.write_unlock();
    assert_eq!(l.version(), 2);
    l.reset();
    assert_eq!(l.version(), 0);
}

#[test]
fn frame_header_roundtrip() {
    let mut f = Frame::new();
    assert_eq!(f.data.len(), PAGE_SIZE);
    assert_eq!(f.block_id, EMPTY_PAGE);
    assert_eq!(f.node_type, 1);
    f.len = from_active_dead(300, 7) as u32;
    f.node_type = 0;
    f.sync_header_for_flush();
    assert_eq!(f.data[PAGE_HEADER_LIVE_OFF], 44);
    assert_eq!(f.data[PAGE_HEADER_LIVE_OFF + 1], 1);
    assert_eq!(f.data[PAGE_HEADER_DEAD_OFF], 7);
    assert_eq!(f.data[PAGE_HEADER_TYPE_OFF], 0);
    f.len = 0;
    f.node_type = 2;
    f.rebuild_len_from_header();
    assert_eq!(active_len(f.len), 300);
    assert_eq!(dead_len(f.len), 7);
    assert_eq!(f.node_type, 0);
    f.pin_count = 3;
    f.is_dirty = true;
    f.reset_metadata(42, 9);
    assert_eq!((f.block_id, f.pin_count, f.is_dirty, f.last_epoch), (42, 0, false, 9));
    assert_eq!(active_len(f.len), 300);
}

#[test]
fn epoch_table_guards_eviction() {
    let mut t = EpochTable::new();
    assert_eq!(t.slots.len(), MAX_THREADS);
    assert_eq!(t.min_active_epoch(), EPOCH_SENTINEL);
    assert!(t.safe_to_evict(5));
    assert!(t.safe_to_evict(u64::MAX));
    assert_eq!(t.advance(), 1);
    assert_eq!(t.advance(), 2);
    assert_eq!(t.enter(3), 2);
    assert_eq!(t.current(), 2);
    assert_eq!(t.advance(), 3);
    assert_eq!(t.enter(7), 3);
    assert_eq!(t.min_active_epoch(), 2);
    assert!(t.safe_to_evict(1));
    assert!(!t.safe_to_evict(2));
    t.exit(3);
    assert_eq!(t.min_active_epoch(), 3);
    assert!(t.safe_to_evict(2));
    t.exit(7);
    assert_eq!(t.min_active_epoch(), EPOCH_SENTINEL);
}

#[test]
fn clock_replacer_gives_a_second_chance() {
    let mut c = ClockReplacer::new(4);
    assert_eq!(c.evict_candidate(), None);
    c.set_evictable(1, true);
    c.set_evictable(2, true);
    c.record_access(1);
    let first = c.evict_candidate();
    assert_eq!(first, Some(2));
    assert!(!c.ref_bit[1]);
    c.set_evictable(2, false);
    assert_eq!(c.evict_candidate(), Some(1));
    c.set_evictable(1, false);
    assert_eq!(c.evict_candidate(), None);
}

#[test]
fn crud_operations_classify_readers_and_writers() {
    assert!(CRUDOperation::<u64>::Insert(1, 2).is_write());
    assert!(CRUDOperation::<u64>::Update(1, 2).is_write());
    assert!(CRUDOperation::<u64>::Delete(1).is_write());
    assert!(CRUDOperation::<u64>::UpdateRand.is_write());
    assert!(CRUDOperation::<u64>::DeleteRand.is_write());
    assert!(CRUDOperation::<u64>::InsertRand.is_write());
    assert!(CRUDOperation::<u64>::Point(1, 2).is_read());
    assert!(CRUDOperation::<u64>::RangeSi(Interval::new(0, 1)).is_read());
    assert!(matches!(CRUDOperation::<u64>::default(), CRUDOperation::Empty));
    assert!(CRUDOperation::<u64>::default().is_read());
}

#[test]
fn crud_results_ok_and_err() {
    assert!(CRUDOperationResult::<u64>::default().is_err());
    assert!(!CRUDOperationResult::<u64>::Inserted(3).is_err());
    assert!(CRUDOperationResult::<u64>::ZeroAffected(CRUDOperationInnerReason::KeyDoesNotExist).is_ok());
    assert!(!CRUDOperationResult::<u64>::Error.is_ok());
}

#[test]
fn transactions_wrap_and_unwrap() {
    let a = AtomicTransaction::new(Some(5), CRUDOperation::<u64>::Delete(3));
    assert_eq!(a.snapshot(), Some(5));
    let t = a.into_transaction();
    assert_eq!(t.snapshot(), 5);
    assert_eq!(t.crud().len(), 1);
    let back = t.try_into_atomic_transaction();
    assert!(matches!(back, Ok(AtomicTransaction { snapshot: Some(5), crud: CRUDOperation::Delete(3) })));
    let latest = AtomicTransaction::new_latest_si(CRUDOperation::<u64>::PointSi(1));
    assert_eq!(latest.snapshot(), None);
    assert_eq!(AtomicTransaction::from_crud(CRUDOperation::<u64>::Empty).snapshot(), None);
    let mut ops = VecDeque::new();
    ops.push_back(CRUDOperation::<u64>::Insert(1, 1));
    ops.push_back(CRUDOperation::<u64>::Insert(2, 2));
    let many = Transaction::new(None, ops);
    assert_eq!(many.snapshot(), u64::MAX);
    let kept = many.try_into_atomic_transaction();
    assert!(matches!(kept, Err(ref t) if t.crud.len() == 2 && t.snapshot.is_none()));
}

#[test]
fn snapshots_of_results() {
    let ok: Result<(u64, CRUDOperationResult<u64>), u64> = Ok((7, CRUDOperationResult::Inserted(7)));
    let err: Result<(u64, CRUDOperationResult<u64>), u64> = Err(9);
    assert_eq!(snapshot_from_atomic_tx_result(&ok), 7);
    assert_eq!(snapshot_from_atomic_tx_result(&err), 9);
    let tx_ok: Result<(u64, Vec<CRUDOperationResult<u64>>), (Transaction<u64>, Vec<CRUDOperationResult<u64>>)> =
        Ok((4, Vec::new()));
    assert_eq!(snapshot_from_tx_result(&tx_ok), 4);
    let tx_err: Result<(u64, Vec<CRUDOperationResult<u64>>), (Transaction<u64>, Vec<CRUDOperationResult<u64>>)> =
        Err((Transaction::new(Some(11), VecDeque::new()), Vec::new()));
    assert_eq!(snapshot_from_tx_result(&tx_err), 11);
    let tx_latest: Result<(u64, Vec<CRUDOperationResult<u64>>), (Transaction<u64>, Vec<CRUDOperationResult<u64>>)> =
        Err((Transaction::new(None, VecDeque::new()), Vec::new()));
    assert_eq!(snapshot_from_tx_result(&tx_latest), u64::MAX);
}

#[test]
fn key_steps_saturate() {
    assert_eq!(inc_key(4), 5);
    assert_eq!(inc_key(u64::MAX), u64::MAX);
    assert_eq!(dec_key(4), 3);
    assert_eq!(dec_key(0), 0);
}

#[test]
fn insertion_counts_are_spelled_out() {
    assert_eq!(format_insertions(0), "0");
    assert_eq!(format_insertions(999), "999");
    assert_eq!(format_insertions(1_000), "1 K");
    assert_eq!(format_insertions(1_234_567), "1 Mio + 234 K + 567");
    assert_eq!(format_insertions(2_000_000_005), "2 B + 5");
}

#[test]
fn random_strings_respect_their_bounds() {
    for _ in 0..20 {
        let s = rnd_str(3, 9);
        assert!(s.len() >= 3 && s.len() <= 9);
        assert!(s.chars().all(|c| c.is_ascii_alphanumeric()));
    }
    let v = rnd_str_vec(5, 2, 2);
    assert_eq!(v.len(), 5);
    assert!(v.iter().all(|s| s.len() == 2));
    let p = PayloadIndirection::default();
    assert_eq!(p.0.attributes.len(), PAYLOAD_ATTR_STR_COUNT);
    let a = p.0.attr(3);
    assert!(a.len() >= PAYLOAD_STR_LEN_MIN && a.len() <= PAYLOAD_STR_LEN_MAX);
}

#[test]
fn unit_payload_prints_as_unit() {
    let n = NullValue::default();
    assert_eq!(n.to_string(), "()");
}
