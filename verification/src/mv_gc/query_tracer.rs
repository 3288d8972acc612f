use vstd::prelude::*;
use crossbeam_skiplist::SkipSet;
use crate::mv_tx_model::transaction_result::SnapShot;

verus! {

#[verifier::external_type_specification]
#[verifier::external_body]
#[verifier::reject_recursive_types(T)]
pub struct ExSkipSet<T>(SkipSet<T>);

/// The (snapshot, thread id) pairs held by a set of active readers.
pub uninterp spec fn reader_entries(s: SkipSet<(u64, usize)>) -> Set<(u64, usize)>;

/// The order of pairs: by snapshot, then by thread id.
pub open spec fn pair_le(a: (u64, usize), b: (u64, usize)) -> bool {
    a.0 < b.0 || (a.0 == b.0 && a.1 <= b.1)
}

/// `crossbeam_skiplist::SkipSet::new`: an empty set.
#[verifier::external_body]
fn reader_set_new() -> (r: SkipSet<(u64, usize)>)
    ensures
        reader_entries(r) == Set::<(u64, usize)>::empty(),
{
    SkipSet::new()
}

/// `crossbeam_skiplist::SkipSet::insert`: the pair is in the set (once).
#[verifier::external_body]
fn reader_set_insert(s: &mut SkipSet<(u64, usize)>, x: (u64, usize))
    ensures
        reader_entries(*final(s)) == reader_entries(*old(s)).insert(x),
{
    s.insert(x);
}

/// `crossbeam_skiplist::SkipSet::remove`: the pair is no longer in the set.
#[verifier::external_body]
fn reader_set_remove(s: &mut SkipSet<(u64, usize)>, x: (u64, usize))
    ensures
        reader_entries(*final(s)) == reader_entries(*old(s)).remove(x),
{
    s.remove(&x);
}

/// `crossbeam_skiplist::SkipSet::front`: the smallest pair, if any.
#[verifier::external_body]
fn reader_set_front(s: &SkipSet<(u64, usize)>) -> (r: Option<(u64, usize)>)
    ensures
        r is None <==> reader_entries(*s) == Set::<(u64, usize)>::empty(),
        r matches Some(x) ==> reader_entries(*s).contains(x) && forall|y: (u64, usize)|
            reader_entries(*s).contains(y) ==> pair_le(x, y),
{
    s.front().map(|e| *e.value())
}

/// `crossbeam_skiplist::SkipSet::back`: the largest pair, if any.
#[verifier::external_body]
fn reader_set_back(s: &SkipSet<(u64, usize)>) -> (r: Option<(u64, usize)>)
    ensures
        r is None <==> reader_entries(*s) == Set::<(u64, usize)>::empty(),
        r matches Some(x) ==> reader_entries(*s).contains(x) && forall|y: (u64, usize)|
            reader_entries(*s).contains(y) ==> pair_le(y, x),
{
    s.back().map(|e| *e.value())
}

/// The snapshot of `s` is the oldest held by a reader of `readers`.
pub open spec fn oldest_reader(readers: Set<(u64, usize)>, s: SnapShot) -> bool {
    &&& exists|t: usize| readers.contains((s, t))
    &&& forall|x: (u64, usize)| readers.contains(x) ==> s <= x.0
}

/// The snapshot of `s` is the newest held by a reader of `readers`.
pub open spec fn newest_reader(readers: Set<(u64, usize)>, s: SnapShot) -> bool {
    &&& exists|t: usize| readers.contains((s, t))
    &&& forall|x: (u64, usize)| readers.contains(x) ==> x.0 <= s
}

/// A read that starts and then completes leaves the readers as they were,
/// when that thread was not already reading at that snapshot.
pub proof fn law_read_start_complete_restores(readers: Set<(u64, usize)>, s: SnapShot, t: usize)
    requires
        !readers.contains((s, t)),
    ensures
        readers.insert((s, t)).remove((s, t)) == readers,
{
    assert(readers.insert((s, t)).remove((s, t)) =~= readers);
}

/// The readers of a tree that are between the start and the end of a read:
/// the snapshot each reads at, with the thread it runs on.
pub struct TransactionTrace(pub SkipSet<(SnapShot, usize)>);

impl TransactionTrace {
    pub open spec fn readers(self) -> Set<(u64, usize)> {
        reader_entries(self.0)
    }

    /// No reader.
    pub fn new() -> (r: Self)
        ensures
            r.readers() == Set::<(u64, usize)>::empty(),
    {
        TransactionTrace(reader_set_new())
    }

    /// The oldest snapshot a reader holds, `None` without readers.
    pub fn peek_min(&self) -> (r: Option<SnapShot>)
        ensures
            r is None <==> self.readers() == Set::<(u64, usize)>::empty(),
            r matches Some(s) ==> oldest_reader(self.readers(), s),
    {
        match reader_set_front(&self.0) {
            Some(x) => {
                proof {
                    assert(self.readers().contains((x.0, x.1)));
                    assert forall|y: (u64, usize)| self.readers().contains(y) implies x.0 <= y.0 by {
                        assert(pair_le(x, y));
                    }
                    assert(oldest_reader(self.readers(), x.0));
                }
                Some(x.0)
            },
            None => None,
        }
    }

    /// The newest snapshot a reader holds, `None` without readers.
    pub fn peek_max(&self) -> (r: Option<SnapShot>)
        ensures
            r is None <==> self.readers() == Set::<(u64, usize)>::empty(),
            r matches Some(s) ==> newest_reader(self.readers(), s),
    {
        match reader_set_back(&self.0) {
            Some(x) => {
                proof {
                    assert(self.readers().contains((x.0, x.1)));
                    assert forall|y: (u64, usize)| self.readers().contains(y) implies y.0 <= x.0 by {
                        assert(pair_le(y, x));
                    }
                    assert(newest_reader(self.readers(), x.0));
                }
                Some(x.0)
            },
            None => None,
        }
    }

    /// Thread `tid` starts reading at `snapshot`.
    pub fn on_tx_start(&mut self, snapshot: SnapShot, tid: usize)
        ensures
            final(self).readers() == old(self).readers().insert((snapshot, tid)),
    {
        reader_set_insert(&mut self.0, (snapshot, tid));
    }

    /// Thread `tid` is done reading at `snapshot`.
    pub fn on_tx_completed(&mut self, snapshot: SnapShot, tid: usize)
        ensures
            final(self).readers() == old(self).readers().remove((snapshot, tid)),
    {
        reader_set_remove(&mut self.0, (snapshot, tid));
    }
}

} // verus!
