use vstd::prelude::*;
use crossbeam_skiplist::SkipMap;
use crate::mv_page_model::BlockID;
use crate::mv_record_model::version_info::Version;

verus! {

/// The pages of a dead-page map: for each version, the page that died at it.
pub uninterp spec fn dead_page_entries(m: SkipMap<u64, u64>) -> Map<u64, u64>;

/// `crossbeam_skiplist::SkipMap::new`: an empty map.
#[verifier::external_body]
fn dead_map_new() -> (r: SkipMap<u64, u64>)
    ensures
        (dead_page_entries(r) == Map::<u64, u64>::empty()),
{
    SkipMap::new()
}

/// `crossbeam_skiplist::SkipMap::insert`: `key` maps to `value`, replacing an
/// entry of the same key.
#[verifier::external_body]
fn dead_map_insert(m: &mut SkipMap<u64, u64>, key: u64, value: u64)
    ensures
        dead_page_entries(*final(m)) == dead_page_entries(*old(m)).insert(key, value),
{
    m.insert(key, value);
}

/// `crossbeam_skiplist::SkipMap::front`: the smallest key, if any.
#[verifier::external_body]
fn dead_map_front(m: &SkipMap<u64, u64>) -> (r: Option<u64>)
    ensures
        r is None <==> dead_page_entries(*m).dom() == Set::<u64>::empty(),
        r matches Some(k) ==> is_min_key(dead_page_entries(*m), k),
{
    m.front().map(|e| *e.key())
}

/// `crossbeam_skiplist::SkipMap::pop_front`: the entry with the smallest key,
/// removed from the map, if any.
#[verifier::external_body]
fn dead_map_pop_front(m: &mut SkipMap<u64, u64>) -> (r: Option<(u64, u64)>)
    ensures
        r is None <==> dead_page_entries(*old(m)).dom() == Set::<u64>::empty(),
        r is None ==> dead_page_entries(*final(m)) == dead_page_entries(*old(m)),
        r matches Some(e) ==> {
            &&& is_min_key(dead_page_entries(*old(m)), e.0)
            &&& e.1 == dead_page_entries(*old(m))[e.0]
            &&& dead_page_entries(*final(m)) == dead_page_entries(*old(m)).remove(e.0)
        },
{
    m.pop_front().map(|e| (*e.key(), *e.value()))
}

/// `k` is the smallest key of `m`.
pub open spec fn is_min_key(m: Map<u64, u64>, k: u64) -> bool {
    &&& m.dom().contains(k)
    &&& forall|j: u64| m.dom().contains(j) ==> k <= j
}

/// The pages that died, each under the version it died at; a later page
/// dying at the same version replaces the earlier one.
pub struct BlockTrace(pub SkipMap<Version, BlockID>);

impl BlockTrace {
    pub open spec fn pages(self) -> Map<u64, u64> {
        dead_page_entries(self.0)
    }

    /// No dead page.
    pub fn new() -> (r: Self)
        ensures
            (r.pages() == Map::<u64, u64>::empty()),
    {
        BlockTrace(dead_map_new())
    }

    /// Takes the page that died first (at the smallest version), if any.
    pub fn pop_min(&mut self) -> (r: Option<(Version, BlockID)>)
        ensures
            r is None <==> old(self).pages().dom() == Set::<u64>::empty(),
            r is None ==> final(self).pages() == old(self).pages(),
            r matches Some(e) ==> {
                &&& is_min_key(old(self).pages(), e.0)
                &&& e.1 == old(self).pages()[e.0]
                &&& final(self).pages() == old(self).pages().remove(e.0)
            },
    {
        dead_map_pop_front(&mut self.0)
    }

    /// The smallest version a page died at, if any.
    pub fn peek_min(&self) -> (r: Option<Version>)
        ensures
            r is None <==> self.pages().dom() == Set::<u64>::empty(),
            r matches Some(k) ==> is_min_key(self.pages(), k),
    {
        dead_map_front(&self.0)
    }

    /// Page `page` died at `page_version`.
    pub fn register_died_page(&mut self, page_version: Version, page: BlockID)
        ensures
            final(self).pages() == old(self).pages().insert(page_version, page),
    {
        dead_map_insert(&mut self.0, page_version, page);
    }

    /// Two pages died, in this order.
    pub fn register_died_page_col(&mut self, dead_pages: [(Version, BlockID); 2])
        ensures
            final(self).pages() == old(self).pages().insert(dead_pages[0].0, dead_pages[0].1).insert(
                dead_pages[1].0,
                dead_pages[1].1,
            ),
    {
        let (v0, p0) = dead_pages[0];
        let (v1, p1) = dead_pages[1];
        self.register_died_page(v0, p0);
        self.register_died_page(v1, p1);
    }
}

} // verus!
