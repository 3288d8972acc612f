use cmvbt::mv_sync::clock::{committed_read, CommitRegistry, GlobalClock, ThreadState, INACTIVE_COMMIT_VERSION_MAX, MAX_READS_IN_ROW_EPSILON, READ_IN_ROW_INACTIVE};
use cmvbt::mv_sync::latch_protocol::{self, LatchProtocol};
use cmvbt::mv_sync::locking_strategy::{self, LockingStrategy};
use cmvbt::mv_sync::smart_cell::{
    active_len, commit_sector, dead_len, from_active_dead, from_len, from_len_sum, is_leaf_word,
    is_write_latched_word, latch_sector, LatchType, OptCell, SmartCell, BLOCK_FLAG_VERSION, PAGE_TYPE_LEAF,
    WRITE_FLAG_VERSION,
};
use cmvbt::mv_block::block::Block;
use cmvbt::mv_sync::version_handle::START_VERSION;

#[test]
fn packed_length_word_roundtrip() {
    let w = from_active_dead(300, 7) as u32;
    assert_eq!(w, 300 * 0x10000 + 7);
    assert_eq!(active_len(w), 300);
    assert_eq!(dead_len(w), 7);
    assert_eq!(from_len(w), (300, 7));
    assert_eq!(from_len_sum(w), 307);
    assert_eq!(from_active_dead(0, 0), 0);
    assert_eq!(from_active_dead(0xFFFF, 0xFFFF), 0xFFFF_FFFF);
}

#[test]
fn latch_word_sectors_and_flags() {
    let word = BLOCK_FLAG_VERSION | PAGE_TYPE_LEAF | 0x1234_0000_0000 | 0x0002_0003;
    assert_eq!(commit_sector(word), 0x0002_0003);
    assert_eq!(latch_sector(word), BLOCK_FLAG_VERSION | PAGE_TYPE_LEAF | 0x1234_0000_0000);
    assert!(is_leaf_word(word));
    assert!(!is_leaf_word(BLOCK_FLAG_VERSION));
    assert!(!is_write_latched_word(word));
    assert!(is_write_latched_word(word | WRITE_FLAG_VERSION));
}

#[test]
fn opt_cell_write_lock_needs_the_seen_word() {
    let mut c = OptCell::new_blank(5u64);
    assert_eq!(c.cell_version, 0);
    assert_eq!(c.write_lock(1), None);
    assert_eq!(c.cell_version, 0);
    assert_eq!(c.write_lock(0), Some(WRITE_FLAG_VERSION));
    assert_eq!(c.cell_version, WRITE_FLAG_VERSION);
    assert_eq!(c.cell, 5);
}

#[test]
fn write_guard_holds_the_flag_in_the_cell_until_release() {
    let mut c = SmartCell(OptCell::new_blank(9u64));
    {
        let g = c.borrow_write().unwrap();
        assert!(g.writer);
        assert_eq!(g.latch, WRITE_FLAG_VERSION);
        assert_eq!(g.cell().0.cell_version, WRITE_FLAG_VERSION);
        g.release();
    }
    assert_eq!(c.0.cell_version, 0);
    c.0.cell_version = WRITE_FLAG_VERSION;
    assert!(c.borrow_write().is_none());
    assert_eq!(c.0.cell_version, WRITE_FLAG_VERSION);
}

#[test]
fn reader_guard_upgrades_only_on_an_unchanged_word() {
    let mut c = SmartCell(OptCell::new_blank(1u64));
    let mut g = c.borrow_read();
    assert!(!g.writer);
    g.latch = 4;
    assert!(!g.upgrade_write_lock());
    assert!(!g.writer);
    g.latch = 0;
    assert!(g.upgrade_write_lock());
    assert!(g.writer);
    assert_eq!(g.cell().0.cell_version, WRITE_FLAG_VERSION);
    g.release();
    assert_eq!(c.0.cell_version, 0);
}

#[test]
fn writer_commit_reaches_the_cell() {
    let mut c = Block::<4, 10, u64>::default().into_cell();
    let before = c.0.cell_version;
    {
        let mut g = c.borrow_write().unwrap();
        g.commit_delta(3, 1);
        assert_eq!(g.active_dead(), (3, 1));
        assert_eq!(g.cell().0.cell_version, g.latch);
        assert!(is_write_latched_word(g.latch));
        g.release();
    }
    assert_eq!(c.0.cell_version, before | from_active_dead(3, 1));
    assert!(!is_write_latched_word(c.0.cell_version));
}

#[test]
fn latch_protocols_and_strategies() {
    assert!(matches!(LatchProtocol::default(), LatchProtocol::MonoWriter));
    assert!(matches!(latch_protocol::OLC(), LatchProtocol::OLC));
    assert!(latch_protocol::OLC().is_concurrent());
    assert!(!LatchProtocol::MonoWriter.is_concurrent());
    assert!(LatchProtocol::MonoWriter.is_mono_writer());
    assert!(matches!(LatchProtocol::OLC.latch_type(), LatchType::Optimistic));
    assert!(matches!(LatchProtocol::MonoWriter.latch_type(), LatchType::NoLatch));
    assert_eq!(LatchProtocol::OLC.name(), "OLC");
    assert_eq!(LatchProtocol::MonoWriter.name(), "MonoWriter");

    assert!(matches!(LockingStrategy::default(), LockingStrategy::MonoWriter));
    assert!(matches!(locking_strategy::OLC(), LockingStrategy::OLC));
    assert!(locking_strategy::OLC().is_concurrent());
    assert!(LockingStrategy::MonoWriter.is_mono_writer());
    assert!(!LockingStrategy::OLC.is_mono_writer());
    assert!(matches!(LockingStrategy::OLC.latch_type(), LatchType::Optimistic));
    assert_eq!(LockingStrategy::OLC.name(), "OLC");
    assert_eq!(LockingStrategy::MonoWriter.name(), "MonoWriter");
}

#[test]
fn global_clock_hands_out_versions() {
    let mut reg = CommitRegistry::new();
    let mut st = ThreadState::new(&mut reg);
    let mut clock = GlobalClock::new();
    assert_eq!(clock.current_version(), START_VERSION);
    st.inc_reads();
    let v = clock.start_commit(&mut st);
    assert_eq!(v, START_VERSION);
    assert_eq!(clock.current_version(), START_VERSION + 1);
    assert_eq!(st.reads_in_row, 0);
    clock.end_commit(&mut reg, &st, v);
    assert_eq!(reg.committed[st.tid], v);
    assert!(reg.global_dirty);
}

#[test]
fn thread_registration_grows_the_table() {
    let mut reg = CommitRegistry::new();
    assert_eq!(reg.global_min, START_VERSION);
    let a = ThreadState::new(&mut reg);
    let b = ThreadState::new(&mut reg);
    assert_eq!(a.tid, 0);
    assert_eq!(b.tid, 1);
    assert_eq!(reg.thread_count, 2);
    assert!(reg.committed.len() >= 2);
    assert!(reg.committed.iter().all(|v| *v == INACTIVE_COMMIT_VERSION_MAX));
    assert!(a.has_active_commit());
    assert!(!a.has_reads_in_row_max());
}

#[test]
fn committed_read_takes_the_oldest_open_commit() {
    let mut reg = CommitRegistry::new();
    let mut a = ThreadState::new(&mut reg);
    let b = ThreadState::new(&mut reg);
    reg.thread_local_commit(a.tid, 5);
    reg.thread_local_commit(b.tid, 9);
    // dirty: recomputed as the smallest of the clock time and the commits
    assert_eq!(committed_read(&mut reg, &mut a, 20), 5);
    assert_eq!(reg.global_min, 5);
    assert!(!reg.global_dirty);
    // clean: the stored value comes back whatever the clock time
    assert_eq!(committed_read(&mut reg, &mut a, 2), 5);
    assert_eq!(a.reads_in_row, 2);
}

#[test]
fn committed_read_never_moves_back() {
    let mut reg = CommitRegistry::new();
    let mut a = ThreadState::new(&mut reg);
    reg.thread_local_commit(a.tid, 8);
    assert_eq!(committed_read(&mut reg, &mut a, 100), 8);
    reg.thread_local_commit(a.tid, 3);
    assert_eq!(committed_read(&mut reg, &mut a, 100), 8);
}

#[test]
fn long_read_streak_withdraws_the_commit() {
    let mut reg = CommitRegistry::new();
    let mut a = ThreadState::new(&mut reg);
    reg.thread_local_commit(a.tid, 4);
    a.reads_in_row = MAX_READS_IN_ROW_EPSILON + 1;
    assert!(a.has_reads_in_row_max());
    let r = committed_read(&mut reg, &mut a, 50);
    assert_eq!(a.reads_in_row, READ_IN_ROW_INACTIVE);
    assert!(!a.has_active_commit());
    assert_eq!(reg.committed[a.tid], INACTIVE_COMMIT_VERSION_MAX);
    assert_eq!(r, 50);
    a.reset_reads();
    assert_eq!(a.reads_in_row, 0);
    a.set_inactive_commit(&mut reg);
    assert_eq!(a.reads_in_row, READ_IN_ROW_INACTIVE);
}
