use vstd::prelude::*;
use std::collections::VecDeque;
use crate::mv_crud_model::crud_operation::CRUDOperation;
use crate::mv_record_model::version_info::Version;
use crate::mv_tx_model::transaction_result::SnapShot;

verus! {

/// A batch of requests run against one snapshot (`None`: the newest one).
pub struct Transaction<P> {
    pub snapshot: Option<SnapShot>,
    pub crud: VecDeque<CRUDOperation<P>>,
}

/// A single request run against one snapshot (`None`: the newest one).
pub struct AtomicTransaction<P> {
    pub snapshot: Option<SnapShot>,
    pub crud: CRUDOperation<P>,
}

impl<P> AtomicTransaction<P> {
    pub fn new(snapshot: Option<SnapShot>, crud: CRUDOperation<P>) -> (r: Self)
        ensures
            r == (AtomicTransaction { snapshot, crud }),
    {
        AtomicTransaction { snapshot, crud }
    }

    /// A request against the newest snapshot.
    pub fn new_latest_si(crud: CRUDOperation<P>) -> (r: Self)
        ensures
            r == (AtomicTransaction { snapshot: None, crud }),
    {
        AtomicTransaction { snapshot: None, crud }
    }

    /// The same request as a batch of one.
    pub fn into_transaction(self) -> (r: Transaction<P>)
        ensures
            r.snapshot == self.snapshot,
            r.crud@ == seq![self.crud],
    {
        let mut crud = VecDeque::new();
        crud.push_back(self.crud);
        Transaction::new(self.snapshot, crud)
    }

    pub fn from_crud(crud: CRUDOperation<P>) -> (r: Self)
        ensures
            r == (AtomicTransaction { snapshot: None, crud }),
    {
        Self::new_latest_si(crud)
    }

    pub fn snapshot(&self) -> (r: Option<Version>)
        ensures
            r == self.snapshot,
    {
        self.snapshot
    }
}

impl<P> Transaction<P> {
    pub fn new(snapshot: Option<Version>, crud: VecDeque<CRUDOperation<P>>) -> (r: Self)
        ensures
            r.snapshot == snapshot,
            r.crud@ == crud@,
    {
        Transaction { snapshot, crud }
    }

    /// A batch of exactly one request becomes that request; any other batch
    /// is handed back unchanged.
    pub fn try_into_atomic_transaction(self) -> (r: Result<AtomicTransaction<P>, Self>)
        ensures
            self.crud@.len() == 1 ==> (r matches Ok(a) && a.snapshot == self.snapshot && a.crud == self.crud@[0]),
            self.crud@.len() != 1 ==> (r matches Err(t) && t.snapshot == self.snapshot && t.crud@ == self.crud@),
    {
        let mut tx = self;
        if tx.crud.len() == 1 {
            let op = tx.crud.pop_front();
            match op {
                Some(op) => Ok(AtomicTransaction::new(tx.snapshot, op)),
                None => vstd::pervasive::unreached(),
            }
        } else {
            Err(tx)
        }
    }

    /// The snapshot the batch reads; the newest possible when none was given.
    pub fn snapshot(&self) -> (r: Version)
        ensures
            r == match self.snapshot {
                Some(s) => s,
                None => u64::MAX,
            },
    {
        match self.snapshot {
            Some(s) => s,
            None => Version::MAX,
        }
    }

    pub fn crud(&self) -> (r: &VecDeque<CRUDOperation<P>>)
        ensures
            r@ == self.crud@,
    {
        &self.crud
    }
}

} // verus!
