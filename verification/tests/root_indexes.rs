use cmvbt::mv_crud_model::crud_operation::CRUDOperation;
use cmvbt::mv_crud_model::crud_operation_result::CRUDOperationResult;
use cmvbt::mv_root::index_root::{RootIndex, RootIndexType};
use cmvbt::mv_root::tree_root::ValueRootInner;
use cmvbt::mv_sync::locking_strategy::LockingStrategy;
use cmvbt::mv_tree::mvtree::MVTreeSt;
use cmvbt::mv_utils::interval::Interval;

type SmallTree = MVTreeSt<8, 8, u64>;

fn point(t: &mut SmallTree, key: u64, version: u64) -> Option<u64> {
    match t.dispatch_crud(CRUDOperation::Point(key, version)) {
        CRUDOperationResult::MatchedRecords(v) => v.first().map(|r| r.payload),
        _ => panic!("point read must answer with records"),
    }
}

fn run_workload(kind: RootIndexType) {
    let mut t = SmallTree::make_standard(LockingStrategy::MonoWriter, kind).unwrap();
    assert!(t.root_star_index() == kind);
    let mut versions = Vec::new();
    for k in 0..300u64 {
        match t.dispatch_crud(CRUDOperation::Insert(k, k + 1)) {
            CRUDOperationResult::Inserted(v) => versions.push(v),
            _ => panic!("insert must succeed"),
        }
    }
    assert!(t.count_roots() > 1);
    for k in 0..300u64 {
        let w = versions[k as usize];
        assert_eq!(point(&mut t, k, w), Some(k + 1));
        if w > 1 {
            assert_eq!(point(&mut t, k, w - 1), None);
        }
    }
    let now = t.current_version();
    match t.dispatch_crud(CRUDOperation::Range(Interval::new(100, 109), now)) {
        CRUDOperationResult::MatchedRecords(v) => assert_eq!(v.len(), 10),
        _ => panic!("range read must answer with records"),
    }
}

#[test]
fn every_available_root_index_serves_the_tree() {
    run_workload(RootIndexType::FrugalList);
    run_workload(RootIndexType::SkipList);
    run_workload(RootIndexType::LinkedList);
}

#[test]
fn the_btree_root_index_is_not_available() {
    assert!(SmallTree::make_standard(LockingStrategy::MonoWriter, RootIndexType::BTree).is_none());
    assert!(SmallTree::olc_optimistic_clock(RootIndexType::BTree).is_none());
    assert!(RootIndex::new(RootIndexType::BTree, 0).is_none());
    let t = SmallTree::default();
    assert!(t.root_star_index() == RootIndexType::FrugalList);
    assert!(t.locking_strategy() == LockingStrategy::OLC);
}

#[test]
fn root_lookup_per_structure() {
    for kind in [RootIndexType::FrugalList, RootIndexType::SkipList, RootIndexType::LinkedList] {
        let mut ri = RootIndex::new(kind, 7).unwrap();
        assert!(ri.index_type() == kind);
        assert_eq!(ri.count_roots(), 1);
        assert!(ri.append_root(ValueRootInner::from(8, 2), 5));
        assert!(ri.append_root(ValueRootInner::from(9, 3), 9));
        assert_eq!(ri.count_roots(), 3);
        let (cur, v) = ri.current_root();
        assert!(cur == ValueRootInner(9, 3) && v == 9);
        assert_eq!(ri.height(), 3);
        let (r, v) = ri.root_for(6).unwrap();
        assert!(r == ValueRootInner(8, 2) && v == 5);
        let (r, v) = ri.root_for(1).unwrap();
        assert!(r == ValueRootInner(7, 1) && v == 1);
        let (r, _) = ri.root_for(100).unwrap();
        assert!(r == ValueRootInner(9, 3));
        let before_start = ri.root_for(0);
        if kind == RootIndexType::LinkedList {
            assert!(before_start.unwrap().0 == ValueRootInner(7, 1));
        } else {
            assert!(before_start.is_none());
        }
    }
}

#[test]
fn root_numbers_count_the_roots_up_to_a_snapshot() {
    for kind in [RootIndexType::FrugalList, RootIndexType::LinkedList, RootIndexType::SkipList] {
        let mut t = SmallTree::make_standard(LockingStrategy::MonoWriter, kind).unwrap();
        let start = t.current_version();
        for k in 0..300u64 {
            assert!(matches!(t.dispatch_crud(CRUDOperation::Insert(k, k)), CRUDOperationResult::Inserted(_)));
        }
        let n = t.count_roots();
        assert!(n > 1);
        let now = t.current_version();
        match kind {
            RootIndexType::FrugalList => {
                assert_eq!(t.retrieve_root_number_for(start), (1, n));
                assert_eq!(t.retrieve_root_number_for(now), (n, n));
            }
            RootIndexType::LinkedList => {
                assert_eq!(t.retrieve_root_number_for(start), (1, n));
                assert_eq!(t.retrieve_root_number_for(now), (n, n));
            }
            _ => assert_eq!(t.retrieve_root_number_for(now), (0, 0)),
        }
    }
}
