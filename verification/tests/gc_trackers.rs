use cmvbt::mv_block::block_handle::BlockAllocManager;
use cmvbt::mv_gc::block_tracer::BlockTrace;
use cmvbt::mv_gc::query_tracer::TransactionTrace;
use cmvbt::mv_gc::tracker_handle::TrackerHandleSt;

#[test]
fn readers_are_tracked_by_snapshot() {
    let mut t = TransactionTrace::new();
    assert_eq!(t.peek_min(), None);
    assert_eq!(t.peek_max(), None);
    t.on_tx_start(7, 0);
    t.on_tx_start(3, 1);
    t.on_tx_start(9, 2);
    assert_eq!(t.peek_min(), Some(3));
    assert_eq!(t.peek_max(), Some(9));
    t.on_tx_completed(3, 1);
    assert_eq!(t.peek_min(), Some(7));
    // completing a read that never started changes nothing
    t.on_tx_completed(7, 5);
    assert_eq!(t.peek_min(), Some(7));
    t.on_tx_completed(7, 0);
    t.on_tx_completed(9, 2);
    assert_eq!(t.peek_max(), None);
}

#[test]
fn two_threads_at_one_snapshot_are_two_readers() {
    let mut t = TransactionTrace::new();
    t.on_tx_start(4, 0);
    t.on_tx_start(4, 1);
    t.on_tx_completed(4, 0);
    assert_eq!(t.peek_max(), Some(4));
    t.on_tx_completed(4, 1);
    assert_eq!(t.peek_max(), None);
}

#[test]
fn dead_pages_come_back_oldest_first() {
    let mut d = BlockTrace::new();
    assert_eq!(d.pop_min(), None);
    d.register_died_page(20, 200);
    d.register_died_page_col([(10, 100), (30, 300)]);
    assert_eq!(d.peek_min(), Some(10));
    assert_eq!(d.pop_min(), Some((10, 100)));
    assert_eq!(d.pop_min(), Some((20, 200)));
    // a second page dying at the same version replaces the first
    d.register_died_page(30, 301);
    assert_eq!(d.pop_min(), Some((30, 301)));
    assert_eq!(d.peek_min(), None);
}

#[test]
fn the_tracker_reports_readers_and_hands_out_pages() {
    let mut h = TrackerHandleSt::new();
    assert_eq!(h.newest_live_si(), None);
    assert_eq!(h.free_block(), None);
    h.on_tx_start(5, 0);
    h.on_tx_start(8, 1);
    assert_eq!(h.newest_live_si(), Some(8));
    h.on_tx_completed(8, 1);
    assert_eq!(h.newest_live_si(), Some(5));
    h.register_died_page(2, 40);
    h.register_died_page_col([(1, 41), (3, 42)]);
    assert_eq!(h.free_block(), Some(41));
    assert_eq!(h.free_block(), Some(40));
    assert_eq!(h.free_block(), Some(42));
    assert_eq!(h.free_block(), None);
}

#[test]
fn the_block_manager_passes_dead_pages_to_its_tracker() {
    let mut m: BlockAllocManager<8, 8> = BlockAllocManager::new();
    // without a tracker, dead pages are dropped
    m.register_dead(1, 10);
    assert!(m.tracker().is_none());
    m.pass_aux_tx_tracker(Some(TrackerHandleSt::new()));
    m.register_dead(2, 20);
    m.register_dead_col([(1, 11), (4, 44)]);
    m.reset_alloc_reuse_counts();
    let mut t = m.tracker.take().unwrap();
    assert_eq!(t.free_block(), Some(11));
    assert_eq!(t.free_block(), Some(20));
    assert_eq!(t.free_block(), Some(44));
    m.pass_aux_tx_tracker(Some(t));
    m.del_aux();
    assert!(m.tracker().is_none());
}
