use std::collections::HashMap;

use cmvbt::mv_buffer::block_buffer::{
    BufferPool, FetchStep, FrameId, NewPageStep, NodeType, EMPTY_PAGE, PAGE_HEADER_LIVE_OFF, PAGE_HEADER_TYPE_OFF,
    PAGE_SIZE,
};
use cmvbt::mv_sync::smart_cell::{active_len, from_active_dead};

/// Pages written back, by block id; stands for the disk file.
type MemDisk = HashMap<u64, Vec<u8>>;

fn temp_pool(n: usize) -> BufferPool {
    BufferPool::new(n)
}

fn write_back(pool: &mut BufferPool, disk: &mut MemDisk, fid: FrameId, old: u64) {
    disk.insert(old, pool.frame(fid).data.clone());
    pool.evict_frame(fid);
}

fn alloc_new(pool: &mut BufferPool, disk: &mut MemDisk, bid: u64, t: NodeType) -> Option<FrameId> {
    match pool.alloc_new_page(bid, t) {
        NewPageStep::Done(f) => Some(f),
        NewPageStep::WriteBack(f, old) => {
            write_back(pool, disk, f, old);
            pool.init_new_page(f, bid, t);
            Some(f)
        }
        NewPageStep::Unavailable => None,
    }
}

fn fetch(pool: &mut BufferPool, disk: &mut MemDisk, bid: u64) -> Option<FrameId> {
    match pool.fetch_page(bid) {
        FetchStep::Hit(f) => Some(f),
        FetchStep::Read(f) => {
            let data = disk.get(&bid)?.clone();
            pool.install_page(f, bid, data);
            Some(f)
        }
        FetchStep::WriteBack(f, old) => {
            write_back(pool, disk, f, old);
            let data = disk.get(&bid)?.clone();
            pool.install_page(f, bid, data);
            Some(f)
        }
        FetchStep::Unavailable => None,
    }
}

/// A writer: pin, latch at the version seen, write, unlatch, unpin dirty.
fn writer_example(pool: &mut BufferPool, disk: &mut MemDisk, bid: u64) {
    let fid = fetch(pool, disk, bid).expect("page must be available");
    let p_stat = pool.frame(fid).latch.version();
    if !pool.frames[fid as usize].latch.try_write_lock(p_stat) {
        pool.unpin_page(bid, false);
        return;
    }
    pool.frames[fid as usize].latch.write_unlock();
    pool.unpin_page(bid, true);
}

/// A reader: register, resolve, read the counters, validate, deregister.
fn reader_example(pool: &mut BufferPool, bid: u64) -> bool {
    let tid = 0usize;
    pool.epochs.enter(tid);
    let Some(fid) = pool.resolve_for_reader(bid) else {
        pool.epochs.exit(tid);
        return false;
    };
    let confirmed_bid = pool.frame(fid).block_id;
    let _len = pool.frame(fid).len;
    let ok = confirmed_bid == bid && pool.validate_frame(fid, confirmed_bid);
    pool.epochs.exit(tid);
    ok
}

#[test]
fn test_alloc_fetch_unpin() {
    let mut pool = temp_pool(16);
    let mut disk = MemDisk::new();
    let bid = 0u64;
    let fid = alloc_new(&mut pool, &mut disk, bid, NodeType::Leaf).unwrap();
    assert_eq!(pool.frame(fid).block_id, bid);
    pool.unpin_page(bid, true);
    assert_eq!(pool.frame(fid).pin_count, 0);
}

#[test]
fn test_reader_writer_no_conflict() {
    let mut pool = temp_pool(32);
    let mut disk = MemDisk::new();
    let bid = 0u64;
    let _fid = alloc_new(&mut pool, &mut disk, bid, NodeType::Leaf).unwrap();
    pool.unpin_page(bid, true);
    for _ in 0..100 {
        assert!(reader_example(&mut pool, bid));
        writer_example(&mut pool, &mut disk, bid);
    }
    let fid = pool.resolve_for_reader(bid).unwrap();
    assert_eq!(pool.frame(fid).pin_count, 0);
    assert_eq!(pool.frame(fid).latch.version(), 200);
}

#[test]
fn test_epoch_prevents_eviction_during_read() {
    let mut pool = temp_pool(4);
    let mut disk = MemDisk::new();
    let bid = 42u64;
    alloc_new(&mut pool, &mut disk, bid, NodeType::Leaf).unwrap();
    pool.unpin_page(bid, false);

    let tid = 0usize;
    pool.epochs.enter(tid);
    let fid = *pool.page_table.get(&bid).unwrap();
    let frame_epoch = pool.frame(fid).last_epoch;

    assert!(
        !pool.epochs.safe_to_evict(frame_epoch),
        "epoch guard must prevent eviction while reader is active"
    );

    pool.epochs.exit(tid);

    assert!(pool.epochs.safe_to_evict(frame_epoch), "epoch guard must allow eviction after reader exits");
}

#[test]
fn test_r2_validate_detects_eviction() {
    let mut pool = temp_pool(1);
    let mut disk = MemDisk::new();
    let bid0 = 0u64;
    let bid1 = 1u64;

    let fid0 = alloc_new(&mut pool, &mut disk, bid0, NodeType::Leaf).unwrap();
    pool.unpin_page(bid0, false);

    let confirmed = pool.frame(fid0).block_id;
    assert_eq!(confirmed, bid0);

    let _ = alloc_new(&mut pool, &mut disk, bid1, NodeType::Leaf);

    assert!(!pool.validate_frame(fid0, bid0), "validate_frame must return false after eviction");
}

#[test]
fn a_new_pool_has_every_frame_free() {
    let pool = temp_pool(3);
    assert_eq!(pool.free_list.len(), 3);
    assert_eq!(pool.free_list.iter().copied().collect::<Vec<_>>(), vec![0, 1, 2]);
    for f in 0..3u32 {
        assert_eq!(pool.frame(f).block_id, EMPTY_PAGE);
        assert_eq!(pool.frame(f).pin_count, 0);
    }
    assert!(pool.page_table.is_empty());
}

#[test]
fn a_new_page_carries_its_id_and_type() {
    let mut pool = temp_pool(2);
    let f = match pool.alloc_new_page(0x0102_0304_0506_0708, NodeType::Internal) {
        NewPageStep::Done(f) => f,
        _ => panic!("a free frame must be taken"),
    };
    assert_eq!(f, 0);
    let fr = pool.frame(f);
    assert_eq!(fr.data.len(), PAGE_SIZE);
    assert_eq!(&fr.data[0..8], &[8, 7, 6, 5, 4, 3, 2, 1]);
    assert_eq!(fr.data[PAGE_HEADER_TYPE_OFF], 0);
    assert!(fr.data[9..].iter().all(|b| *b == 0));
    assert_eq!(fr.node_type, 0);
    assert_eq!(fr.len, 0);
    assert!(fr.is_dirty);
    assert_eq!(fr.pin_count, 1);
    assert_eq!(fr.last_epoch, 1);
    assert_eq!(pool.epochs.current(), 1);
    assert_eq!(pool.free_list.len(), 1);
}

#[test]
fn a_page_cached_again_is_made_new_in_place() {
    let mut pool = temp_pool(2);
    let mut disk = MemDisk::new();
    let f = alloc_new(&mut pool, &mut disk, 9, NodeType::Leaf).unwrap();
    pool.frames[f as usize].data[100] = 55;
    pool.frames[f as usize].len = from_active_dead(3, 1) as u32;
    let again = alloc_new(&mut pool, &mut disk, 9, NodeType::Root).unwrap();
    assert_eq!(again, f);
    let fr = pool.frame(f);
    assert_eq!(fr.data[100], 0);
    assert_eq!(fr.node_type, 2);
    assert_eq!(fr.len, 0);
    assert_eq!(fr.pin_count, 2);
    assert_eq!(pool.epochs.current(), 1);
}

#[test]
fn a_full_pool_of_pinned_frames_has_nothing_to_give() {
    let mut pool = temp_pool(1);
    let mut disk = MemDisk::new();
    alloc_new(&mut pool, &mut disk, 0, NodeType::Leaf).unwrap();
    assert!(matches!(pool.alloc_new_page(1, NodeType::Leaf), NewPageStep::Unavailable));
    assert!(matches!(pool.fetch_page(1), FetchStep::Unavailable));
    assert!(!pool.validate_frame(0, 1));
    assert!(pool.validate_frame(0, 0));
}

#[test]
fn an_evicted_dirty_page_comes_back_from_disk() {
    let mut pool = temp_pool(1);
    let mut disk = MemDisk::new();
    let f = alloc_new(&mut pool, &mut disk, 5, NodeType::Leaf).unwrap();
    pool.frames[f as usize].data[40] = 7;
    pool.frames[f as usize].len = from_active_dead(300, 2) as u32;
    pool.unpin_page(5, true);

    // the only frame is taken over by page 6; page 5 is written back first
    match pool.alloc_new_page(6, NodeType::Leaf) {
        NewPageStep::WriteBack(g, old) => {
            assert_eq!((g, old), (f, 5));
            let hdr = &pool.frame(g).data;
            assert_eq!(hdr[PAGE_HEADER_LIVE_OFF], (300 % 256) as u8);
            assert_eq!(hdr[PAGE_HEADER_LIVE_OFF + 1], (300 / 256) as u8);
            write_back(&mut pool, &mut disk, g, old);
            assert!(pool.page_table.get(&5).is_none());
            pool.init_new_page(g, 6, NodeType::Leaf);
        }
        _ => panic!("the dirty page must be written back"),
    }
    pool.unpin_page(6, false);

    let g = fetch(&mut pool, &mut disk, 5).unwrap();
    let fr = pool.frame(g);
    assert_eq!(fr.block_id, 5);
    assert_eq!(fr.data[40], 7);
    assert_eq!(active_len(fr.len), 300);
    assert_eq!(fr.node_type, 1);
    assert_eq!(fr.pin_count, 1);
    assert!(disk.contains_key(&6));
}

#[test]
fn a_clean_victim_is_evicted_without_writing() {
    let mut pool = temp_pool(1);
    let mut disk = MemDisk::new();
    disk.insert(3, vec![0u8; PAGE_SIZE]);
    let f = fetch(&mut pool, &mut disk, 3).unwrap();
    pool.unpin_page(3, false);
    match pool.alloc_new_page(4, NodeType::Leaf) {
        NewPageStep::Done(g) => assert_eq!(g, f),
        _ => panic!("a clean victim needs no write-back"),
    }
    assert!(pool.page_table.get(&3).is_none());
    assert_eq!(*pool.page_table.get(&4).unwrap(), f);
}

#[test]
fn flushing_syncs_the_header_once() {
    let mut pool = temp_pool(2);
    let mut disk = MemDisk::new();
    let f = alloc_new(&mut pool, &mut disk, 8, NodeType::Leaf).unwrap();
    pool.frames[f as usize].len = from_active_dead(2, 1) as u32;
    assert_eq!(pool.flush_page(8), Some(f));
    assert_eq!(pool.frame(f).data[PAGE_HEADER_LIVE_OFF], 2);
    assert_eq!(pool.frame(f).data[PAGE_HEADER_LIVE_OFF + 2], 1);
    pool.finish_flush(f);
    assert!(!pool.frame(f).is_dirty);
    assert_eq!(pool.flush_page(8), None);
    assert_eq!(pool.flush_page(99), None);
}

#[test]
fn forced_eviction_waits_for_pins_and_readers() {
    let mut pool = temp_pool(2);
    let mut disk = MemDisk::new();
    let f = alloc_new(&mut pool, &mut disk, 11, NodeType::Leaf).unwrap();
    assert!(!pool.force_evict_if_safe(11));
    pool.unpin_page(11, false);
    pool.epochs.enter(3);
    assert!(!pool.force_evict_if_safe(11));
    pool.epochs.exit(3);
    assert!(pool.force_evict_if_safe(11));
    assert_eq!(pool.frame(f).block_id, EMPTY_PAGE);
    assert_eq!(pool.free_list.back().copied(), Some(f));
    assert!(pool.force_evict_if_safe(11));
    assert!(pool.resolve_for_reader(11).is_none());
}

#[test]
fn a_reader_resolves_without_pinning() {
    let mut pool = temp_pool(2);
    let mut disk = MemDisk::new();
    let f = alloc_new(&mut pool, &mut disk, 21, NodeType::Leaf).unwrap();
    pool.unpin_page(21, false);
    let before = pool.epochs.current();
    assert_eq!(pool.resolve_for_reader(21), Some(f));
    assert_eq!(pool.frame(f).pin_count, 0);
    assert_eq!(pool.frame(f).last_epoch, before + 1);
    assert_eq!(pool.resolve_for_reader(22), None);
    // unpinning a page that is not cached changes nothing
    pool.unpin_page(22, true);
    assert_eq!(pool.frame(f).pin_count, 0);
}

#[test]
fn a_frame_read_by_an_active_reader_is_not_evicted() {
    let mut pool = temp_pool(1);
    let mut disk = MemDisk::new();
    alloc_new(&mut pool, &mut disk, 0, NodeType::Leaf).unwrap();
    pool.unpin_page(0, false);
    pool.epochs.enter(1);
    assert!(matches!(pool.alloc_new_page(1, NodeType::Leaf), NewPageStep::Unavailable));
    pool.epochs.exit(1);
    assert!(matches!(pool.alloc_new_page(1, NodeType::Leaf), NewPageStep::WriteBack(0, 0)));
}

#[test]
fn the_clock_offers_every_frame_before_giving_up() {
    // two frames: the first is pinned, the second referenced but free to go
    let mut pool = temp_pool(2);
    let mut disk = MemDisk::new();
    alloc_new(&mut pool, &mut disk, 10, NodeType::Leaf).unwrap();
    alloc_new(&mut pool, &mut disk, 11, NodeType::Leaf).unwrap();
    pool.unpin_page(11, false);
    pool.replacer.record_access(1);
    pool.finish_flush(1);
    match pool.alloc_new_page(12, NodeType::Leaf) {
        NewPageStep::Done(f) => assert_eq!(f, 1),
        _ => panic!("the clean, unpinned frame must be taken"),
    }
    assert!(pool.page_table.get(&11).is_none());
    assert_eq!(*pool.page_table.get(&10).unwrap(), 0);
}
