use vstd::prelude::*;
use crate::mv_record_model::record_point::Key;
use crate::mv_record_model::version_info::Version;
use crate::mv_utils::interval::Interval;

verus! {

/// One request to the tree. `Empty` is the default (no request).
#[derive(Clone, Copy)]
pub enum CRUDOperation<P> {
    Empty,
    // writers
    Insert(Key, P),
    Update(Key, P),
    Delete(Key),
    // readers
    Point(Key, Version),
    PointSi(Key),
    Range(Interval, Version),
    RangeSi(Interval),
    RangeIter(Interval, Version),
    RangeIterSi(Interval),
    // writers on a random key
    UpdateRand,
    DeleteRand,
    InsertRand,
}

impl<P> CRUDOperation<P> {
    /// True for requests that need no write access.
    pub open spec fn spec_is_read(self) -> bool {
        !(self is Insert || self is Update || self is Delete || self is UpdateRand || self is DeleteRand
            || self is InsertRand)
    }

    pub fn is_read(&self) -> (r: bool)
        ensures
            r == self.spec_is_read(),
    {
        match self {
            CRUDOperation::Insert(..) | CRUDOperation::Delete(..) | CRUDOperation::Update(..)
            | CRUDOperation::UpdateRand | CRUDOperation::DeleteRand | CRUDOperation::InsertRand => false,
            _ => true,
        }
    }

    pub fn is_write(&self) -> (r: bool)
        ensures
            r == !self.spec_is_read(),
    {
        !self.is_read()
    }

    /// The requests that need write access are exactly the inserts, updates
    /// and deletes, on a given or on a random key; every other request, the
    /// empty one included, is a read.
    pub proof fn law_read_write_split(self)
        ensures
            !self.spec_is_read() <==> (self is Insert || self is Update || self is Delete || self is InsertRand
                || self is UpdateRand || self is DeleteRand),
            self is Empty ==> self.spec_is_read(),
    {
    }

    /// The default request.
    pub fn default() -> (r: Self)
        ensures
            r is Empty,
    {
        CRUDOperation::Empty
    }
}

} // verus!
