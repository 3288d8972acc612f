use vstd::prelude::*;
use crate::mv_crud_model::crud_operation_result::CRUDOperationResult;
use crate::mv_record_model::version_info::Version;
use crate::mv_tx_model::transaction::Transaction;

verus! {

/// The snapshot a transaction ran against.
pub type SnapShot = Version;

/// The snapshot recorded in the outcome of a single request, whether it
/// succeeded or not.
pub fn snapshot_from_atomic_tx_result<P>(
    atomic_transaction_result: &Result<(SnapShot, CRUDOperationResult<P>), SnapShot>,
) -> (r: SnapShot)
    ensures
        r == match atomic_transaction_result {
            Ok((s, _)) => *s,
            Err(s) => *s,
        },
{
    match atomic_transaction_result {
        Ok((snapshot, _)) => *snapshot,
        Err(snapshot) => *snapshot,
    }
}

/// The snapshot recorded in the outcome of a batch: the one it ran against,
/// or, for a batch handed back, the one it asked for.
pub fn snapshot_from_tx_result<P>(
    transaction_result: &Result<
        (SnapShot, Vec<CRUDOperationResult<P>>),
        (Transaction<P>, Vec<CRUDOperationResult<P>>),
    >,
) -> (r: SnapShot)
    ensures
        r == match transaction_result {
            Ok((s, _)) => *s,
            Err((tx, _)) => match tx.snapshot {
                Some(s) => s,
                None => u64::MAX,
            },
        },
{
    match transaction_result {
        Ok((snapshot, _)) => *snapshot,
        Err((tx, _)) => tx.snapshot(),
    }
}

} // verus!
