use vstd::prelude::*;
use crate::mv_record_model::version_info::VersionInfo;

verus! {

/// Keys of the tree.
pub type Key = u64;

/// One stored record version: key, lifespan and payload.
#[derive(Clone, Copy)]
pub struct RecordPoint<P> {
    pub key: Key,
    pub version: VersionInfo,
    pub payload: P,
}

/// What a query hands back of a matching record: its key and payload.
#[derive(Clone, Copy)]
pub struct RecordPointResult<P> {
    pub key: Key,
    pub payload: P,
}

impl<P: Copy> RecordPoint<P> {
    pub fn new(key: Key, version: VersionInfo, payload: P) -> (r: Self)
        ensures
            r == (RecordPoint { key, version, payload }),
    {
        RecordPoint { key, version, payload }
    }
}

impl<P: Copy> RecordPointResult<P> {
    pub fn new(key: Key, payload: P) -> (r: Self)
        ensures
            r == (RecordPointResult { key, payload }),
    {
        RecordPointResult { key, payload }
    }
}

} // verus!
