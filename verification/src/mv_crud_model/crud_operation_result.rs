use vstd::prelude::*;
use crate::mv_record_model::record_point::{Key, RecordPointResult};
use crate::mv_record_model::version_info::Version;

verus! {

/// Why a write changed nothing.
#[derive(PartialEq, Eq, Structural)]
pub enum CRUDOperationInnerReason {
    KeyAlreadyDeleted,
    KeyDoesNotExist,
}

/// The outcome of a request.
pub enum CRUDOperationResult<P> {
    MatchedRecords(Vec<RecordPointResult<P>>),
    Inserted(Version),
    Updated(Version),
    Deleted(Version),
    InsertedRand(Key, Version),
    UpdatedRand(Key, Version),
    DeletedRand(Key, Version),
    ZeroAffected(CRUDOperationInnerReason),
    Error,
}

impl<P> CRUDOperationResult<P> {
    pub fn is_err(&self) -> (r: bool)
        ensures
            r == (*self is Error),
    {
        match self {
            CRUDOperationResult::Error => true,
            _ => false,
        }
    }

    pub fn is_ok(&self) -> (r: bool)
        ensures
            r == !(*self is Error),
    {
        !self.is_err()
    }

    /// The default outcome.
    pub fn default() -> (r: Self)
        ensures
            r is Error,
    {
        CRUDOperationResult::Error
    }
}

} // verus!
