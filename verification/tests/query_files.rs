use cmvbt::mv_crud_model::crud_operation::CRUDOperation;
use cmvbt::mv_crud_model::crud_operation_result::CRUDOperationResult;
use cmvbt::mv_sync::locking_strategy::LockingStrategy;
use cmvbt::mv_test::{
    decode_query, encode_query, gen_block, generate_init_population, load_query, load_query_into_memory, logged,
    run_block, DELETE, INSERT, QUERY_RECORD_LEN, UPDATE,
};
use cmvbt::mv_tree::mvtree::MVTreeSt;

type SmallTree = MVTreeSt<8, 8, u64>;

#[test]
fn records_are_opcode_then_little_endian_key() {
    let mut out = Vec::new();
    assert!(encode_query(&CRUDOperation::Insert(0x0102_0304_0506_0708, 77), &mut out));
    assert_eq!(out, vec![INSERT, 8, 7, 6, 5, 4, 3, 2, 1]);
    assert!(encode_query(&CRUDOperation::Update(1, 5), &mut out));
    assert!(encode_query(&CRUDOperation::Delete(u64::MAX), &mut out));
    assert_eq!(out.len(), 3 * QUERY_RECORD_LEN);
    assert_eq!(&out[9..18], &[UPDATE, 1, 0, 0, 0, 0, 0, 0, 0]);
    assert_eq!(&out[18..27], &[DELETE, 255, 255, 255, 255, 255, 255, 255, 255]);
    assert!(!encode_query(&CRUDOperation::Point(1, 2), &mut out));
    assert!(!encode_query(&CRUDOperation::InsertRand, &mut out));
    assert_eq!(out.len(), 27);
}

#[test]
fn records_read_back_with_the_default_payload() {
    let mut out = Vec::new();
    encode_query(&CRUDOperation::Insert(42, 9), &mut out);
    encode_query(&CRUDOperation::Delete(7), &mut out);
    assert!(matches!(decode_query(&out, 0), Some(CRUDOperation::Insert(42, 0))));
    assert!(matches!(decode_query(&out, 9), Some(CRUDOperation::Delete(7))));
    out.extend_from_slice(&[1, 2, 3]);
    let ops = load_query_into_memory(&out).ok().unwrap();
    assert_eq!(ops.len(), 2);
    assert!(matches!(ops[1], CRUDOperation::Delete(7)));
    let mut bad = out.clone();
    bad[9] = 5;
    assert_eq!(load_query_into_memory(&bad).err(), Some(1));
    assert!(decode_query(&bad, 9).is_none());
}

#[test]
fn replay_applies_every_request() {
    let mut t = SmallTree::new(LockingStrategy::MonoWriter);
    let ops = vec![
        CRUDOperation::Insert(1, 0),
        CRUDOperation::Insert(2, 0),
        CRUDOperation::Update(1, 0),
        CRUDOperation::Delete(2),
    ];
    assert_eq!(load_query(&mut t, &ops).ok(), Some(4));
    let bad = vec![CRUDOperation::Insert(3, 0), CRUDOperation::Delete(9)];
    match load_query(&mut t, &bad) {
        Err((1, CRUDOperationResult::ZeroAffected(_))) => {}
        _ => panic!("the delete of a missing key must stop the replay"),
    }
}

#[test]
fn blocks_hold_the_requested_mix() {
    let b = gen_block(3, 2, 1);
    assert_eq!(b.len(), 6);
    assert_eq!(b.iter().filter(|o| matches!(o, CRUDOperation::InsertRand)).count(), 3);
    assert_eq!(b.iter().filter(|o| matches!(o, CRUDOperation::UpdateRand)).count(), 2);
    assert_eq!(b.iter().filter(|o| matches!(o, CRUDOperation::DeleteRand)).count(), 1);
}

#[test]
fn random_answers_are_logged_as_plain_requests() {
    assert!(matches!(
        logged(CRUDOperation::InsertRand, &CRUDOperationResult::InsertedRand(5, 3)),
        CRUDOperation::Insert(5, 0)
    ));
    assert!(matches!(
        logged(CRUDOperation::UpdateRand, &CRUDOperationResult::UpdatedRand(6, 3)),
        CRUDOperation::Update(6, 0)
    ));
    assert!(matches!(
        logged(CRUDOperation::DeleteRand, &CRUDOperationResult::DeletedRand(7, 3)),
        CRUDOperation::Delete(7)
    ));
    assert!(matches!(
        logged(CRUDOperation::Delete(8), &CRUDOperationResult::Deleted(4)),
        CRUDOperation::Delete(8)
    ));
}

#[test]
fn generated_workload_replays_on_a_fresh_tree() {
    let mut t = SmallTree::new(LockingStrategy::MonoWriter);
    let mut log = Vec::new();
    assert!(generate_init_population(&mut t, 50, &mut log).is_ok());
    assert_eq!(log.len(), 50 * 9);
    let ops = load_query_into_memory(&log).ok().unwrap();
    assert!(ops.iter().all(|o| matches!(o, CRUDOperation::Insert(_, 0))));
    for _ in 0..5 {
        let block = gen_block(4, 2, 1);
        let before = log.len();
        match run_block(&mut t, &block, &mut log) {
            Ok(n) => assert_eq!(log.len() - before, 9 * n),
            Err(i) => assert_eq!(log.len() - before, 9 * i),
        }
    }
    let all = load_query_into_memory(&log).ok().unwrap();
    let mut replayed = SmallTree::new(LockingStrategy::MonoWriter);
    assert_eq!(load_query(&mut replayed, &all).ok(), Some(all.len()));
}
