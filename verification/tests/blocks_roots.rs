use cmvbt::mv_block::block::Block;
use cmvbt::mv_block::block_handle::BlockAllocManager;
use cmvbt::mv_page_model::internal_page::InternalPage;
use cmvbt::mv_page_model::leaf_page::LeafPage;
use cmvbt::mv_page_model::node::Node;
use cmvbt::mv_record_model::record_point::RecordPoint;
use cmvbt::mv_record_model::version_info::VersionInfo;
use cmvbt::mv_root::frugal_root::{pick_level, AtomicFrugalList, FrugalNodeSt, FLAT_LEVEL, SENTINEL_LEVEL};
use cmvbt::mv_root::index_root::RootIndexType;
use cmvbt::mv_root::tree_root::ValueRootInner;
use cmvbt::mv_tree::mvbplus_tree::ClockType;
use cmvbt::mv_tree::root::{Root, INIT_TREE_HEIGHT, LEVEL_ROOT};
use cmvbt::mv_tree::smo::{
    active_entries, find_merge_candidate, key_split_records, live_records, merge_records_by_version,
    sort_entries, sort_records, BlockUnsafeDegree,
};
use cmvbt::mv_utils::interval::Interval;

type LeafBlock = Block<4, 10, u64>;

fn leaf_block_with(active: u64) -> LeafBlock {
    let mut page = LeafPage::<10, u64>::new();
    for k in 0..active {
        page.insert_versioned(k, 1, k);
    }
    Block { node_data: Node::Leaf(page) }
}

#[test]
fn block_fill_thresholds() {
    let b = LeafBlock::default();
    assert!(b.is_leaf());
    assert_eq!(b.max_units(true), 10);
    assert_eq!(b.max_units(false), 4);
    assert_eq!(b.filling_40_percent(true), 4);
    assert_eq!(b.filling_80_percent(true), 8);
    assert_eq!(b.filling_20_percent(true), 2);
    assert_eq!(b.filling_40_percent(false), 2);
    assert_eq!(b.filling_80_percent(false), 4);
    assert_eq!(b.filling_20_percent(false), 1);
    assert_eq!(b.min_active_units(), 2);
    assert_eq!(b.max_active_units(), 8);
    assert_eq!(b.max_units_safe(), 10);
    let idx: LeafBlock = Block { node_data: Node::Index(InternalPage::<4>::new()) };
    assert!(!idx.is_leaf());
    assert_eq!(idx.max_units_safe(), 3);
    assert_eq!(idx.min_active_units(), 0);
}

#[test]
fn block_degree_follows_the_counters() {
    assert!(leaf_block_with(0).unsafe_degree().is_active_underflow());
    assert!(leaf_block_with(1).unsafe_degree().is_active_underflow());
    assert!(leaf_block_with(2).unsafe_degree().is_ok());
    assert!(leaf_block_with(8).unsafe_degree().is_ok());
    assert!(leaf_block_with(9).unsafe_degree().is_length_overflow());
    let b = leaf_block_with(5);
    assert_eq!(b.active_dead(), (5, 0));
    assert_eq!(b.active_count(), 5);
    assert!(matches!(b.degree(), BlockUnsafeDegree::Safe));
    assert!(matches!(leaf_block_with(2).degree(), BlockUnsafeDegree::ActiveUnderflow));
    assert!(matches!(leaf_block_with(10).degree(), BlockUnsafeDegree::Overflow));
}

#[test]
fn alloc_manager_sizes() {
    let mut m = BlockAllocManager::<4, 10>::new();
    assert!(!m.has_update_in_place());
    m.set_update_in_place(true);
    assert!(m.has_update_in_place());
    assert_eq!(m.allocation_leaf(), 10);
    assert_eq!(m.allocation_directory(), 4);
    assert_eq!(BlockAllocManager::<4, 10>::max_records(), 10);
    assert_eq!(BlockAllocManager::<4, 10>::overflow_records_count(), 10);
    assert_eq!(BlockAllocManager::<4, 10>::max_keys(), 4);
    assert_eq!(BlockAllocManager::<4, 10>::overflow_keys_count(), 3);
}

#[test]
fn live_records_drop_closed_versions() {
    let mut page = LeafPage::<10, u64>::new();
    page.insert_versioned(1, 1, 10);
    page.insert_versioned(2, 2, 20);
    let _ = page.delete_versioned(1, 3);
    page.insert_versioned(3, 4, 30);
    let live = live_records(&page);
    let keys: Vec<u64> = live.iter().map(|r| r.key).collect();
    assert_eq!(keys, vec![2, 3]);
}

#[test]
fn records_sort_by_key_and_by_version() {
    let recs = vec![
        RecordPoint::new(5, VersionInfo::new(1), 0u64),
        RecordPoint::new(2, VersionInfo::new(3), 0u64),
        RecordPoint::new(9, VersionInfo::new(2), 0u64),
    ];
    let by_key: Vec<u64> = sort_records(&recs, true).iter().map(|r| r.key).collect();
    assert_eq!(by_key, vec![2, 5, 9]);
    let by_version: Vec<u64> = sort_records(&recs, false).iter().map(|r| r.key).collect();
    assert_eq!(by_version, vec![5, 9, 2]);
}

#[test]
fn key_split_halves_the_records() {
    let recs: Vec<RecordPoint<u64>> = (0..5u64)
        .map(|k| RecordPoint::new(10 - k, VersionInfo::new(k), k))
        .collect();
    let (s0, left, right) = key_split_records(&recs);
    assert_eq!(left.len(), 2);
    assert_eq!(right.len(), 3);
    assert_eq!(s0, 8);
    assert!(left.iter().all(|r| r.key < 8));
    assert!(right.iter().all(|r| r.key >= 8));
}

#[test]
fn merge_by_version_interleaves() {
    let a = vec![RecordPoint::new(1, VersionInfo::new(1), 0u64), RecordPoint::new(2, VersionInfo::new(4), 0u64)];
    let b = vec![RecordPoint::new(3, VersionInfo::new(2), 0u64), RecordPoint::new(4, VersionInfo::new(3), 0u64)];
    let m: Vec<u64> = merge_records_by_version(&a, &b).iter().map(|r| r.key).collect();
    assert_eq!(m, vec![1, 3, 4, 2]);
}

#[test]
fn index_entries_and_merge_candidate() {
    let mut page = InternalPage::<4>::new();
    page.bulk_push(vec![
        (Interval::new(20, 29), 1, 7),
        (Interval::new(0, 9), 2, 5),
        (Interval::new(10, 19), 3, 6),
    ]);
    let active = active_entries(&page);
    assert_eq!(active.len(), 3);
    let by_lower: Vec<u64> = sort_entries(&active, true).iter().map(|e| e.0.lower).collect();
    assert_eq!(by_lower, vec![0, 10, 20]);
    assert_eq!(find_merge_candidate(&page, 0), Some(2));
    page.mark_version_obsolete(2);
    assert_eq!(active_entries(&page).len(), 2);
    assert_eq!(find_merge_candidate(&page, 0), Some(1));
    page.mark_version_obsolete(1);
    assert_eq!(find_merge_candidate(&page, 0), None);
}

#[test]
fn frugal_history_finds_the_root_of_a_snapshot() {
    let mut list = AtomicFrugalList::new(10usize, 1);
    list.append_next(20, 5);
    list.append_tower(30, 9);
    list.push(40, 12);
    assert_eq!(list.len(), 4);
    assert_eq!(list.current_root(), (40, 12));
    assert_eq!(list.find(0), None);
    assert_eq!(list.find(1), Some(0));
    assert_eq!(list.find(6), Some(1));
    assert_eq!(list.find(9), Some(2));
    assert_eq!(list.find(100), Some(3));
    assert_eq!(list.find_from(1, 100), Some(1));
    assert_eq!(list.nodes[0].level, SENTINEL_LEVEL);
    assert_eq!(list.nodes[1].level, FLAT_LEVEL);
    assert_eq!(list.nodes[1].next, Some(0));
    let mut it = list.iter();
    assert_eq!(it.next(&list), Some(3));
}

#[test]
fn tower_levels_stay_in_range() {
    for _ in 0..100 {
        let l = pick_level();
        assert!(l >= 1 && l < SENTINEL_LEVEL);
    }
}

#[test]
fn frugal_nodes_carry_their_links() {
    let n = FrugalNodeSt::new_with(7u64, 3, 2, Some(1), Some(0));
    assert_eq!((n.payload, n.insert_version, n.level, n.next, n.v_ridgy), (7, 3, 2, Some(1), Some(0)));
    let m = FrugalNodeSt::new(8u64, 4, FLAT_LEVEL);
    assert_eq!((m.next, m.v_ridgy), (None, None));
}

#[test]
fn root_records_and_names() {
    let r = Root::new(3, 7, INIT_TREE_HEIGHT + 1);
    assert_eq!((r.block(), r.version(), r.height()), (3, 7, 2));
    assert_eq!(LEVEL_ROOT, 1);
    let v = ValueRootInner::initial(4);
    assert_eq!((v.block(), v.height()), (4, INIT_TREE_HEIGHT));
    let w = ValueRootInner::from(5, 3);
    assert_eq!((w.block(), w.height()), (5, 3));
    assert_eq!(RootIndexType::default().name(), "FrugalList");
    assert_eq!(RootIndexType::SkipList.name(), "SkipList");
    assert_eq!(RootIndexType::BTree.name(), "BTree");
    assert_eq!(RootIndexType::LinkedList.name(), "LinkedList");
    assert_eq!(ClockType::FREE.name(), "FREE");
    assert_eq!(ClockType::OPTIMISTIC.name(), "OPTIMISTIC");
    assert_eq!(ClockType::SYNCED.name(), "SYNCED");
}
