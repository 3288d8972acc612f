use cmvbt::mv_crud_model::crud_operation::CRUDOperation;
use cmvbt::mv_crud_model::crud_operation_result::{CRUDOperationInnerReason, CRUDOperationResult};
use cmvbt::mv_sync::locking_strategy::LockingStrategy;
use cmvbt::mv_tree::mvtree::MVTreeSt;
use cmvbt::mv_utils::interval::Interval;
use cmvbt::mv_gc::tracker_handle::TrackerHandleSt;
use cmvbt::mv_root::index_root::RootIndexType;

type SmallTree = MVTreeSt<8, 8, u64>;

fn point(t: &mut SmallTree, key: u64, version: u64) -> Option<u64> {
    match t.dispatch_crud(CRUDOperation::Point(key, version)) {
        CRUDOperationResult::MatchedRecords(v) => {
            assert!(v.len() <= 1);
            v.first().map(|r| r.payload)
        }
        _ => panic!("point read must answer with records"),
    }
}

fn insert(t: &mut SmallTree, key: u64, payload: u64) -> u64 {
    match t.dispatch_crud(CRUDOperation::Insert(key, payload)) {
        CRUDOperationResult::Inserted(v) => v,
        _ => panic!("insert must succeed"),
    }
}

#[test]
fn insert_then_read_many_keys() {
    let mut t = SmallTree::new(LockingStrategy::MonoWriter);
    let mut versions = Vec::new();
    for k in 0..400u64 {
        versions.push(insert(&mut t, k * 7 % 401, k + 1000));
    }
    let now = t.current_version();
    for k in 0..400u64 {
        assert_eq!(point(&mut t, k * 7 % 401, now), Some(k + 1000));
    }
    for k in 0..400u64 {
        let key = k * 7 % 401;
        if versions[k as usize] > 1 {
            assert_eq!(point(&mut t, key, versions[k as usize] - 1), None);
        }
        assert_eq!(point(&mut t, key, versions[k as usize]), Some(k + 1000));
    }
}

#[test]
fn update_and_delete_keep_old_snapshots() {
    let mut t = SmallTree::new(LockingStrategy::MonoWriter);
    for k in 0..100u64 {
        insert(&mut t, k, k);
    }
    let before = t.current_version();
    for k in 0..100u64 {
        match t.dispatch_crud(CRUDOperation::Update(k, k + 500)) {
            CRUDOperationResult::Updated(_) => {}
            _ => panic!("update must succeed"),
        }
    }
    let mid = t.current_version();
    for k in (0..100u64).step_by(2) {
        match t.dispatch_crud(CRUDOperation::Delete(k)) {
            CRUDOperationResult::Deleted(_) => {}
            _ => panic!("delete must succeed"),
        }
    }
    let after = t.current_version();
    for k in 0..100u64 {
        assert_eq!(point(&mut t, k, before - 1), Some(k));
        assert_eq!(point(&mut t, k, mid - 1), Some(k + 500));
        let expect = if k % 2 == 0 { None } else { Some(k + 500) };
        assert_eq!(point(&mut t, k, after), expect);
    }
    match t.dispatch_crud(CRUDOperation::Delete(0)) {
        CRUDOperationResult::ZeroAffected(_) => {}
        CRUDOperationResult::Deleted(v) => panic!("second delete took effect at {v}"),
        CRUDOperationResult::Error => panic!("second delete: error"),
        _ => panic!("second delete: other"),
    }
    match t.dispatch_crud(CRUDOperation::Update(1000, 1)) {
        CRUDOperationResult::ZeroAffected(CRUDOperationInnerReason::KeyDoesNotExist) => {}
        _ => panic!("update of a missing key must be refused"),
    }
}

#[test]
fn range_read_sees_snapshot() {
    let mut t = SmallTree::new(LockingStrategy::MonoWriter);
    for k in 0..50u64 {
        insert(&mut t, k, k * 10);
    }
    let now = t.current_version();
    match t.dispatch_crud(CRUDOperation::Range(Interval::new(10, 19), now)) {
        CRUDOperationResult::MatchedRecords(v) => {
            let mut keys: Vec<u64> = v.iter().map(|r| r.key).collect();
            keys.sort();
            assert_eq!(keys, (10..20).collect::<Vec<u64>>());
            assert!(v.iter().all(|r| r.payload == r.key * 10));
        }
        _ => panic!("range read must answer with records"),
    }
}

#[test]
fn a_refused_update_leaves_no_record_behind() {
    let mut t = MVTreeSt::<125, 125, u64>::make_standard(LockingStrategy::MonoWriter, RootIndexType::FrugalList)
        .unwrap();
    assert!(matches!(
        t.dispatch_crud(CRUDOperation::Update(7, 70)),
        CRUDOperationResult::ZeroAffected(CRUDOperationInnerReason::KeyDoesNotExist)
    ));
    assert!(matches!(
        t.dispatch_crud(CRUDOperation::Delete(7)),
        CRUDOperationResult::ZeroAffected(CRUDOperationInnerReason::KeyDoesNotExist)
    ));
    let now = t.current_version();
    match t.dispatch_crud(CRUDOperation::Point(7, now)) {
        CRUDOperationResult::MatchedRecords(v) => assert!(v.is_empty()),
        _ => panic!("point read must answer with records"),
    }
}

#[test]
fn refused_writes_name_their_reason() {
    let mut t = SmallTree::new(LockingStrategy::MonoWriter);
    assert!(matches!(
        t.dispatch_crud(CRUDOperation::Delete(5)),
        CRUDOperationResult::ZeroAffected(CRUDOperationInnerReason::KeyDoesNotExist)
    ));
    insert(&mut t, 5, 50);
    assert!(matches!(t.dispatch_crud(CRUDOperation::Delete(5)), CRUDOperationResult::Deleted(_)));
    assert!(matches!(
        t.dispatch_crud(CRUDOperation::Delete(5)),
        CRUDOperationResult::ZeroAffected(CRUDOperationInnerReason::KeyAlreadyDeleted)
    ));
    assert!(matches!(
        t.dispatch_crud(CRUDOperation::Update(5, 51)),
        CRUDOperationResult::ZeroAffected(CRUDOperationInnerReason::KeyAlreadyDeleted)
    ));
    let now = t.current_version();
    assert_eq!(point(&mut t, 5, now), None);
}

#[test]
fn read_your_write_at_every_later_snapshot() {
    let mut t = SmallTree::new(LockingStrategy::MonoWriter);
    let w = insert(&mut t, 9, 90);
    for v in w..w + 5 {
        assert_eq!(point(&mut t, 9, v), Some(90));
    }
    let u = match t.dispatch_crud(CRUDOperation::Update(9, 91)) {
        CRUDOperationResult::Updated(u) => u,
        _ => panic!("update must succeed"),
    };
    assert!(u > w);
    assert_eq!(point(&mut t, 9, u - 1), Some(90));
    assert_eq!(point(&mut t, 9, u), Some(91));
    assert_eq!(point(&mut t, 9, u + 100), Some(91));
}

#[test]
fn range_iteration_answers_like_a_range_read() {
    let mut t = SmallTree::new(LockingStrategy::MonoWriter);
    for k in 0..30u64 {
        insert(&mut t, k, k + 1);
    }
    let now = t.current_version();
    let keys_of = |r: CRUDOperationResult<u64>| match r {
        CRUDOperationResult::MatchedRecords(v) => {
            let mut keys: Vec<u64> = v.iter().map(|r| r.key).collect();
            keys.sort();
            keys
        }
        _ => panic!("range iteration must answer with records"),
    };
    let a = keys_of(t.dispatch_crud(CRUDOperation::RangeIter(Interval::new(5, 12), now)));
    let b = keys_of(t.dispatch_crud(CRUDOperation::Range(Interval::new(5, 12), now)));
    assert_eq!(a, (5..13).collect::<Vec<u64>>());
    assert_eq!(a, b);
    assert!(t.dispatch_crud(CRUDOperation::RangeIter(Interval::new(0, 5), 0)).is_err());
}

#[test]
fn reads_before_the_first_version_are_errors() {
    let mut t = SmallTree::new(LockingStrategy::MonoWriter);
    insert(&mut t, 1, 1);
    assert!(t.dispatch_crud(CRUDOperation::Point(1, 0)).is_err());
    assert!(t.dispatch_crud(CRUDOperation::Range(Interval::new(0, 5), 0)).is_err());
    assert!(t.dispatch_crud(CRUDOperation::Empty).is_err());
    assert!(t.dispatch_crud(CRUDOperation::PointSi(1)).is_err());
}

#[test]
fn a_second_insert_of_a_key_shadows_the_first() {
    let mut t = SmallTree::new(LockingStrategy::MonoWriter);
    insert(&mut t, 3, 30);
    insert(&mut t, 3, 31);
    let now = t.current_version();
    assert_eq!(point(&mut t, 3, now), Some(31));
    assert!(matches!(t.dispatch_crud(CRUDOperation::Delete(3)), CRUDOperationResult::Deleted(_)));
    let later = t.current_version();
    assert_eq!(point(&mut t, 3, later), Some(30));
}

#[test]
fn old_snapshots_survive_many_splits() {
    let mut t = SmallTree::new(LockingStrategy::MonoWriter);
    for k in 0..64u64 {
        insert(&mut t, k, k);
    }
    let snap = t.current_version() - 1;
    for round in 0..3u64 {
        for k in 0..64u64 {
            match t.dispatch_crud(CRUDOperation::Update(k, k + 100 * (round + 1))) {
                CRUDOperationResult::Updated(_) => {}
                _ => panic!("update must succeed"),
            }
        }
    }
    for k in (0..64u64).step_by(3) {
        let _ = t.dispatch_crud(CRUDOperation::Delete(k));
    }
    for k in 0..64u64 {
        assert_eq!(point(&mut t, k, snap), Some(k));
    }
    match t.dispatch_crud(CRUDOperation::Range(Interval::new(0, u64::MAX), snap)) {
        CRUDOperationResult::MatchedRecords(v) => {
            let mut keys: Vec<u64> = v.iter().map(|r| r.key).collect();
            keys.sort();
            assert_eq!(keys, (0..64).collect::<Vec<u64>>());
        }
        _ => panic!("range read must answer with records"),
    }
}

#[test]
fn random_writes_report_their_key() {
    let mut t = SmallTree::new(LockingStrategy::MonoWriter);
    for k in 0..20u64 {
        insert(&mut t, k * 10, k);
    }
    match t.dispatch_crud(CRUDOperation::UpdateRand) {
        CRUDOperationResult::UpdatedRand(k, w) => {
            assert_eq!(k % 10, 0);
            assert_eq!(point(&mut t, k, w), Some(0));
        }
        CRUDOperationResult::Error => {}
        _ => panic!("unexpected answer to a random update"),
    }
    match t.dispatch_crud(CRUDOperation::DeleteRand) {
        CRUDOperationResult::DeletedRand(k, w) => {
            assert_eq!(point(&mut t, k, w), None);
        }
        CRUDOperationResult::Error => {}
        _ => panic!("unexpected answer to a random delete"),
    }
    match t.dispatch_crud(CRUDOperation::InsertRand) {
        CRUDOperationResult::InsertedRand(k, w) => {
            assert_eq!(point(&mut t, k, w), Some(0));
        }
        CRUDOperationResult::Error => {}
        _ => panic!("unexpected answer to a random insert"),
    }
}

#[test]
fn merged_pages_are_handed_to_the_tracker() {
    let mut t = MVTreeSt::<32, 16, u64>::new(LockingStrategy::MonoWriter);
    t.block_manager.pass_aux_tx_tracker(Some(TrackerHandleSt::new()));
    for k in 0..200u64 {
        assert!(matches!(t.dispatch_crud(CRUDOperation::Insert(k, k)), CRUDOperationResult::Inserted(_)));
    }
    assert!(t.block_manager.tracker().as_ref().unwrap().dead_blocks.peek_min().is_none());
    let mut k = 0u64;
    while k < 200 && t.block_manager.tracker().as_ref().unwrap().dead_blocks.peek_min().is_none() {
        assert!(matches!(t.dispatch_crud(CRUDOperation::Delete(k)), CRUDOperationResult::Deleted(_)));
        k += 1;
    }
    assert!(t.block_manager.tracker().as_ref().unwrap().dead_blocks.peek_min().is_some());
}

#[test]
fn gc_mode_is_switched_on_and_off() {
    let mut t = SmallTree::new(LockingStrategy::MonoWriter);
    assert!(t.block_manager.tracker().is_none());
    t.enable_gc(true);
    assert!(t.block_manager.tracker().is_some());
    assert!(t.block_manager.has_update_in_place());
    t.disable_gc();
    assert!(t.block_manager.tracker().is_none());
}

#[test]
fn an_unseen_record_is_updated_in_place() {
    let mut t = SmallTree::new(LockingStrategy::MonoWriter);
    insert(&mut t, 1, 10);
    t.enable_gc(true);
    let before = t.current_version();
    match t.dispatch_crud(CRUDOperation::Update(1, 11)) {
        CRUDOperationResult::Updated(v) => assert_eq!(v, before),
        _ => panic!("the update must take effect"),
    }
    assert_eq!(t.current_version(), before);
    assert_eq!(point(&mut t, 1, before), Some(11));
    assert!(matches!(t.dispatch_crud(CRUDOperation::Delete(1)), CRUDOperationResult::Deleted(_)));
    let now = t.current_version();
    assert_eq!(point(&mut t, 1, now), None);
    match t.dispatch_crud(CRUDOperation::Update(1, 12)) {
        CRUDOperationResult::Updated(v) => assert_eq!(v, now),
        _ => panic!("an update in place revives the record"),
    }
    assert_eq!(point(&mut t, 1, now), Some(12));
}

#[test]
fn a_record_a_reader_may_see_is_not_rewritten() {
    let mut t = SmallTree::new(LockingStrategy::MonoWriter);
    let w = insert(&mut t, 1, 10);
    t.enable_gc(true);
    t.block_manager.tracker.as_mut().unwrap().on_tx_start(w, 0);
    let before = t.current_version();
    match t.dispatch_crud(CRUDOperation::Update(1, 11)) {
        CRUDOperationResult::Updated(v) => {
            assert_eq!(v, before);
            assert_eq!(t.current_version(), before + 1);
        }
        _ => panic!("the update must take effect"),
    }
    assert_eq!(point(&mut t, 1, w), Some(10));
    assert_eq!(point(&mut t, 1, before), Some(11));
}

#[test]
fn a_random_update_may_rewrite_in_place() {
    let mut t = SmallTree::new(LockingStrategy::MonoWriter);
    insert(&mut t, 4, 40);
    t.enable_gc(true);
    let before = t.current_version();
    match t.dispatch_crud(CRUDOperation::UpdateRand) {
        CRUDOperationResult::UpdatedRand(k, v) => {
            assert_eq!(k, 4);
            assert_eq!(v, before);
            assert_eq!(t.current_version(), before);
            assert_eq!(point(&mut t, 4, before), Some(0));
        }
        _ => panic!("a random update of the only live key must take effect"),
    }
}

#[test]
fn a_random_insert_reads_back_from_its_version() {
    let mut t = SmallTree::new(LockingStrategy::MonoWriter);
    for k in 0..40u64 {
        insert(&mut t, k * 1000, k);
    }
    match t.dispatch_crud(CRUDOperation::InsertRand) {
        CRUDOperationResult::InsertedRand(k, w) => {
            assert_eq!(point(&mut t, k, w), Some(0));
            let now = t.current_version();
            assert_eq!(point(&mut t, k, now), Some(0));
        }
        _ => panic!("a random insert into a sparse tree must take effect"),
    }
}

#[test]
fn a_read_leaves_the_active_readers_as_they_were() {
    let mut t = SmallTree::new(LockingStrategy::MonoWriter);
    insert(&mut t, 3, 30);
    t.enable_gc(false);
    t.block_manager.tracker.as_mut().unwrap().on_tx_start(1, 7);
    let now = t.current_version();
    assert_eq!(point(&mut t, 3, now), Some(30));
    let readers = &t.block_manager.tracker().as_ref().unwrap().live_tx;
    assert_eq!(readers.peek_min(), Some(1));
    assert_eq!(readers.peek_max(), Some(1));
}

#[test]
fn a_writer_without_room_for_a_reorganisation_is_refused() {
    let mut t = MVTreeSt::<8, 8, u64>::new(LockingStrategy::MonoWriter);
    for k in 0..300u64 {
        assert!(matches!(t.dispatch_crud(CRUDOperation::Insert(k, k)), CRUDOperationResult::Inserted(_)));
    }
    for k in 0..16u64 {
        assert!(matches!(t.dispatch_crud(CRUDOperation::Delete(k)), CRUDOperationResult::Deleted(_)));
    }
    assert!(t.dispatch_crud(CRUDOperation::Delete(16)).is_err());
    let now = t.current_version();
    assert_eq!(point(&mut t, 16, now), Some(16));
    assert_eq!(point(&mut t, 15, now), None);
    match t.dispatch_crud(CRUDOperation::Point(100, now)) {
        CRUDOperationResult::MatchedRecords(v) => assert_eq!(v.len(), 1),
        _ => panic!("point read must answer with records"),
    }
}
