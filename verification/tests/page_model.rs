use cmvbt::mv_crud_model::crud_operation_result::CRUDOperationInnerReason;
use cmvbt::mv_page_model::internal_page::InternalPage;
use cmvbt::mv_page_model::leaf_page::LeafPage;
use cmvbt::mv_page_model::node::Node;
use cmvbt::mv_query::time_matcher::{TimeMatcher, OBSOLETE_VERSION_MARK};
use cmvbt::mv_record_model::record_point::{RecordPoint, RecordPointResult};
use cmvbt::mv_record_model::version_info::VersionInfo;
use cmvbt::mv_utils::interval::Interval;

type Leaf = LeafPage<8, u64>;

fn find(page: &Leaf, key: u64, version: u64) -> Option<u64> {
    page.as_records().reverse().find_key_version(page, key, version).map(|r| r.payload)
}

#[test]
fn version_lifespan_open_and_closed() {
    let mut v = VersionInfo::new(5);
    assert!(!v.matches(4));
    assert!(v.matches(5));
    assert!(v.matches(u64::MAX));
    assert!(!v.is_deleted());
    assert!(v.delete(8));
    assert!(v.is_deleted());
    assert!(v.matches(7));
    assert!(!v.matches(8));
    assert!(!v.delete(9));
    assert_eq!(v.delete_version, Some(8));
    v.undelete();
    assert!(v.matches(8));
    assert_eq!(v.insert_version, 5);
}

#[test]
fn leaf_insert_then_find_by_snapshot() {
    let mut page = Leaf::new();
    assert!(page.is_empty());
    page.insert_versioned(3, 10, 300);
    page.insert_versioned(1, 11, 100);
    assert_eq!(page.len(), 2);
    assert_eq!(page.active_dead_count(), (2, 0));
    assert_eq!(find(&page, 3, 10), Some(300));
    assert_eq!(find(&page, 3, 9), None);
    assert_eq!(find(&page, 1, 10), None);
    assert_eq!(find(&page, 1, 11), Some(100));
    assert_eq!(find(&page, 2, 20), None);
}

#[test]
fn leaf_update_keeps_the_older_version() {
    let mut page = Leaf::new();
    page.insert_versioned(7, 10, 1);
    assert!(page.update_versioned(7, 20, 2).is_ok());
    assert_eq!(page.len(), 2);
    assert_eq!(page.active_dead_count(), (1, 1));
    assert_eq!(find(&page, 7, 15), Some(1));
    assert_eq!(find(&page, 7, 20), Some(2));
    assert_eq!(find(&page, 7, 9), None);
}

#[test]
fn leaf_delete_reports_each_refusal() {
    let mut page = Leaf::new();
    let missing = page.delete_versioned(4, 10);
    assert!(matches!(missing, Err(CRUDOperationInnerReason::KeyDoesNotExist)));
    page.insert_versioned(4, 10, 40);
    assert!(page.delete_versioned(4, 12).is_ok());
    assert_eq!(page.active_dead_count(), (0, 1));
    assert_eq!(find(&page, 4, 11), Some(40));
    assert_eq!(find(&page, 4, 12), None);
    let again = page.delete_versioned(4, 13);
    assert!(matches!(again, Err(CRUDOperationInnerReason::KeyAlreadyDeleted)));
    let upd = page.update_versioned(4, 14, 41);
    assert!(matches!(upd, Err(CRUDOperationInnerReason::KeyAlreadyDeleted)));
    let upd_missing = page.update_versioned(5, 14, 50);
    assert!(matches!(upd_missing, Err(CRUDOperationInnerReason::KeyDoesNotExist)));
}

#[test]
fn leaf_plain_delete_closes_the_newest_record() {
    let mut page = Leaf::new();
    assert_eq!(page.delete(9, 3), Ok(None));
    page.insert_versioned(9, 1, 90);
    assert_eq!(page.delete(9, 3), Ok(Some(())));
    assert_eq!(page.delete(9, 4), Err(()));
    assert_eq!(page.slots[0].version.delete_version, Some(3));
}

#[test]
fn leaf_uncommitted_slots_and_undo() {
    let mut page = Leaf::new();
    page.push_uncommitted(RecordPoint::new(1, VersionInfo::new(2), 10), 0);
    assert_eq!(page.len(), 0);
    assert_eq!(page.slots.len(), 1);
    page.commit_delta(1, 0);
    assert_eq!(page.len(), 1);
    page.push_uncommitted(RecordPoint::new(2, VersionInfo::new(3), 20), 1);
    page.undo_uncommitted(1);
    assert_eq!(page.slots.len(), 1);
    assert_eq!(page.len(), 1);
    page.on_reuse();
    assert!(page.is_empty());
    assert_eq!(page.slots.len(), 0);
}

#[test]
fn leaf_bulk_push_and_full() {
    let mut page = Leaf::new();
    let mut recs = Vec::new();
    for k in 0..8u64 {
        recs.push(RecordPoint::new(k, VersionInfo::new(1), k * 10));
    }
    page.bulk_push(recs);
    assert!(page.is_full());
    assert_eq!(page.active_dead_count(), (8, 0));
    assert_eq!(find(&page, 5, 1), Some(50));
}

#[test]
fn record_cursor_walks_both_ways() {
    let mut page = Leaf::new();
    page.insert_versioned(1, 1, 11);
    page.insert_versioned(2, 1, 22);
    page.insert_versioned(3, 1, 33);
    let mut fwd = page.as_records();
    let mut keys = Vec::new();
    while let Some(r) = fwd.next(&page) {
        keys.push(r.key);
    }
    assert_eq!(keys, vec![1, 2, 3]);
    let mut back = page.as_records();
    back.curr = 2;
    let mut back = back.reverse();
    let mut keys = Vec::new();
    while let Some(r) = back.next(&page) {
        keys.push(r.key);
    }
    assert_eq!(keys, vec![3, 2, 1]);
    let cur = page.as_records();
    assert_eq!(cur.key(&page, 1), 2);
    assert_eq!(cur.payload(&page, 2), 33);
    assert_eq!(cur.version(&page, 0).insert_version, 1);
}

#[test]
fn record_cursor_delete_and_commit() {
    let mut page = Leaf::new();
    page.insert_versioned(1, 5, 11);
    let cur = page.as_records();
    assert!(cur.delete(&mut page, 0, 9));
    assert!(!cur.delete(&mut page, 0, 10));
    assert_eq!(page.slots[0].version.delete_version, Some(9));
    cur.commit(&mut page, 0, 6);
    assert_eq!(page.slots[0].version.insert_version, 6);
    assert_eq!(page.slots[0].version.delete_version, Some(9));
    let uncommitted = page.as_records_uncommitted();
    assert_eq!(uncommitted.len, 2);
}

#[test]
fn record_point_result_fields() {
    let r = RecordPointResult::new(4, 44u64);
    assert_eq!(r.key, 4);
    assert_eq!(r.payload, 44);
}

#[test]
fn index_page_entries_and_obsolete_mark() {
    let mut page = InternalPage::<4>::new();
    let entries = vec![
        (Interval::new(0, 9), 1u64, 10u64),
        (Interval::new(10, 19), 2u64, 11u64),
        (Interval::new(20, u64::MAX), 3u64, 12u64),
    ];
    assert_eq!(page.bulk_push(entries), 3);
    assert!(page.get_key(1) == Interval::new(10, 19));
    assert_eq!(page.get_version(2), 3);
    assert_eq!(page.get_pointer(0), 10);
    assert_eq!(page.last_child(3), 12);
    assert_eq!(page.active_dead(3), (3, 0));
    page.mark_version_obsolete(1);
    assert_eq!(page.get_version(1), 2 | OBSOLETE_VERSION_MARK);
    assert_eq!(page.active_dead(3), (2, 1));
    assert_eq!(page.active_dead(1), (1, 0));
    page.push_uncommitted(Interval::new(30, 40), 7, 13, 3);
    assert_eq!(page.last_child(4), 13);
    page.push_uncommitted(Interval::new(0, 4), 8, 14, 0);
    assert_eq!(page.get_pointer(0), 14);
    page.on_reuse();
    assert_eq!(page.version_region.len(), 0);
}

#[test]
fn stamp_comparisons_ignore_the_mark() {
    let marked = 7u64 | OBSOLETE_VERSION_MARK;
    assert!(marked.is_obsolete());
    assert!(!marked.is_active());
    assert!(7u64.is_active());
    assert_eq!(marked.into_cmp(), 7);
    assert!(marked.matched(7));
    assert!(!marked.matched(6));
    assert!(marked.lt_self_any(8));
    assert!(!marked.lt_self_any(7));
    assert!(7u64.match_version_active(7));
    assert!(!marked.match_version_active(7));
}

#[test]
fn interval_contains_overlap_merge() {
    let a = Interval::new(5, 10);
    assert!(a.contains(5) && a.contains(10) && !a.contains(11));
    assert_eq!((a.lower(), a.upper()), (5, 10));
    assert!(a.overlap(&Interval::new(10, 20)));
    assert!(!a.overlap(&Interval::new(11, 20)));
    assert!(!a.overlap(&Interval::new(8, 7)));
    let mut m = a;
    m.merged(&Interval::new(2, 7));
    assert!(m == Interval::new(2, 10));
    m.merged(&Interval::new(4, 30));
    assert!(m == Interval::new(2, 30));
}

#[test]
fn nodes_know_their_kind() {
    let leaf = Node::<4, 8, u64>::new_leaf();
    let index = Node::<4, 8, u64>::new_internal();
    assert!(leaf.is_leaf());
    assert!(!index.is_leaf());
}
