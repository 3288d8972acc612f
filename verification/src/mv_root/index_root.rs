use vstd::prelude::*;
use crossbeam_skiplist::SkipMap;
use crate::mv_page_model::{BlockID, Height};
use crate::mv_record_model::version_info::Version;
use crate::mv_root::frugal_root::{newest_at_most, lemma_newest_at_most, AtomicFrugalList, FrugalNodeSt, FLAT_LEVEL};
use crate::mv_root::tree_root::ValueRootInner;
use crate::mv_sync::version_handle::START_VERSION;
use crate::mv_tree::root::{Root, INIT_TREE_HEIGHT};

verus! {

/// The structure that keeps the history of roots.
#[derive(Clone, Copy, PartialEq, Eq, Structural)]
pub enum RootIndexType {
    FrugalList,
    SkipList,
    BTree,
    LinkedList,
}

impl RootIndexType {
    /// The structure used when none is chosen.
    pub fn default() -> (r: Self)
        ensures
            r == RootIndexType::FrugalList,
    {
        RootIndexType::FrugalList
    }

    /// The structure's name.
    pub fn name(&self) -> (r: &'static str)
        ensures
            *self == RootIndexType::FrugalList ==> r@ == "FrugalList"@,
            *self == RootIndexType::SkipList ==> r@ == "SkipList"@,
            *self == RootIndexType::BTree ==> r@ == "BTree"@,
            *self == RootIndexType::LinkedList ==> r@ == "LinkedList"@,
    {
        match self {
            RootIndexType::FrugalList => "FrugalList",
            RootIndexType::SkipList => "SkipList",
            RootIndexType::BTree => "BTree",
            RootIndexType::LinkedList => "LinkedList",
        }
    }
}

#[verifier::external_type_specification]
#[verifier::external_body]
#[verifier::reject_recursive_types(K)]
#[verifier::reject_recursive_types(V)]
pub struct ExSkipMap<K, V>(SkipMap<K, V>);

/// The entries of a skip map from versions to root blocks and heights, in
/// ascending key order (the order the map keeps them in).
pub uninterp spec fn skip_entries(m: SkipMap<u64, (u64, u16)>) -> Seq<(u64, (u64, u16))>;

/// `crossbeam_skiplist::SkipMap::new`: an empty map.
#[verifier::external_body]
fn skip_new() -> (r: SkipMap<u64, (u64, u16)>)
    ensures
        skip_entries(r) == Seq::<(u64, (u64, u16))>::empty(),
{
    SkipMap::new()
}

/// `crossbeam_skiplist::SkipMap::insert` of a key above every key of the map:
/// the entry becomes the last one.
#[verifier::external_body]
fn skip_insert_last(m: &mut SkipMap<u64, (u64, u16)>, key: u64, value: (u64, u16))
    requires
        forall|i: int| 0 <= i < skip_entries(*old(m)).len() ==> skip_entries(*old(m))[i].0 < key,
    ensures
        skip_entries(*final(m)) == skip_entries(*old(m)).push((key, value)),
{
    m.insert(key, value);
}

/// `crossbeam_skiplist::SkipMap::back`: the entry with the largest key, if any.
#[verifier::external_body]
fn skip_back(m: &SkipMap<u64, (u64, u16)>) -> (r: Option<(u64, (u64, u16))>)
    ensures
        r == if skip_entries(*m).len() == 0 {
            None::<(u64, (u64, u16))>
        } else {
            Some(skip_entries(*m).last())
        },
{
    m.back().map(|e| (*e.key(), *e.value()))
}

/// The last entry of `s` whose key is at most `v`, with its position.
pub open spec fn last_at_most(s: Seq<(u64, (u64, u16))>, v: u64) -> Option<int>
    decreases s.len(),
{
    if s.len() == 0 {
        None
    } else if s.last().0 <= v {
        Some(s.len() - 1)
    } else {
        last_at_most(s.drop_last(), v)
    }
}

/// `crossbeam_skiplist::SkipMap::range` over keys up to `v`, taken from the
/// back: the entry with the largest key not above `v`, if any.
#[verifier::external_body]
fn skip_upto(m: &SkipMap<u64, (u64, u16)>, v: u64) -> (r: Option<(u64, (u64, u16))>)
    ensures
        r == match last_at_most(skip_entries(*m), v) {
            Some(i) => Some(skip_entries(*m)[i]),
            None => None::<(u64, (u64, u16))>,
        },
{
    m.range(..=v).next_back().map(|e| (*e.key(), *e.value()))
}

/// `crossbeam_skiplist::SkipMap::len`: the number of entries.
#[verifier::external_body]
fn skip_len(m: &SkipMap<u64, (u64, u16)>) -> (r: usize)
    ensures
        r == skip_entries(*m).len(),
{
    m.len()
}

/// A root history kept in a skip list: version of each root, its block and
/// the height of the tree below it.
pub struct RootSkipList(pub SkipMap<u64, (BlockID, Height)>);

impl RootSkipList {
    pub open spec fn entries(self) -> Seq<(u64, (u64, u16))> {
        skip_entries(self.0)
    }

    /// An empty history.
    pub fn new() -> (r: Self)
        ensures
            r.entries() == Seq::<(u64, (u64, u16))>::empty(),
    {
        RootSkipList(skip_new())
    }

    /// Height of the tree below the newest root.
    pub fn height(&self) -> (r: Height)
        requires
            self.entries().len() > 0,
        ensures
            r == self.entries().last().1.1,
    {
        match skip_back(&self.0) {
            Some((_, (_, h))) => h,
            None => vstd::pervasive::unreached(),
        }
    }

    /// The newest root.
    pub fn current_root(&self) -> (r: Root)
        requires
            self.entries().len() > 0,
        ensures
            r == (Root { block: self.entries().last().1.0, version: self.entries().last().0, height: self.entries().last().1.1 }),
    {
        match skip_back(&self.0) {
            Some((v, (b, h))) => Root::new(b, v, h),
            None => vstd::pervasive::unreached(),
        }
    }

    /// The newest root whose version is at most `si`, if any.
    pub fn root_for(&self, si: Version) -> (r: Option<Root>)
        ensures
            r == match last_at_most(self.entries(), si) {
                Some(i) => Some(Root { block: self.entries()[i].1.0, version: self.entries()[i].0, height: self.entries()[i].1.1 }),
                None => None::<Root>,
            },
    {
        match skip_upto(&self.0, si) {
            Some((v, (b, h))) => Some(Root::new(b, v, h)),
            None => None,
        }
    }

    /// Appends `root` as the newest root; its version is above every version
    /// in the history.
    pub fn append_root(&mut self, root: Root) -> (r: bool)
        requires
            forall|i: int| 0 <= i < old(self).entries().len() ==> old(self).entries()[i].0 < root.version,
        ensures
            r,
            final(self).entries() == old(self).entries().push((root.version, (root.block, root.height))),
    {
        skip_insert_last(&mut self.0, root.version, (root.block, root.height));
        true
    }
}

/// One entry of a root history: `root` is the root from `version` on. The
/// entry type of the frugal list serves all histories; its links only mean
/// something in a frugal list.
pub open spec fn history_entry(version: Version, root: ValueRootInner) -> FrugalNodeSt<ValueRootInner> {
    FrugalNodeSt { next: None, v_ridgy: None, payload: root, insert_version: version, level: FLAT_LEVEL }
}

pub open spec fn skip_history(s: Seq<(u64, (u64, u16))>) -> Seq<FrugalNodeSt<ValueRootInner>> {
    Seq::new(s.len(), |i: int| history_entry(s[i].0, ValueRootInner(s[i].1.0, s[i].1.1)))
}

pub open spec fn list_history(s: Seq<Root>) -> Seq<FrugalNodeSt<ValueRootInner>> {
    Seq::new(s.len(), |i: int| history_entry(s[i].version, ValueRootInner(s[i].block, s[i].height)))
}

/// Where the history of roots is kept. A B+-tree keyed by version is one of
/// the choices of `RootIndexType`; no structure of that kind is available
/// to this library.
pub enum RootIndex {
    FrugalList(AtomicFrugalList<ValueRootInner>),
    SkipList(RootSkipList),
    LinkedList(Vec<Root>),
}

proof fn lemma_last_at_most(s: Seq<(u64, (u64, u16))>, v: u64)
    ensures
        last_at_most(s, v) == newest_at_most(skip_history(s), s.len() - 1, v),
    decreases s.len(),
{
    let h = skip_history(s);
    if s.len() > 0 && s.last().0 > v {
        let t = s.drop_last();
        lemma_last_at_most(t, v);
        lemma_newest_prefix_same(skip_history(t), h, v, t.len() - 1);
    }
}

proof fn lemma_last_at_most_range(s: Seq<(u64, (u64, u16))>, v: u64)
    ensures
        last_at_most(s, v) matches Some(i) ==> 0 <= i < s.len(),
    decreases s.len(),
{
    if s.len() > 0 && s.last().0 > v {
        lemma_last_at_most_range(s.drop_last(), v);
    }
}

proof fn lemma_newest_prefix_same(a: Seq<FrugalNodeSt<ValueRootInner>>, b: Seq<FrugalNodeSt<ValueRootInner>>, v: u64, upto: int)
    requires
        a.len() <= b.len(),
        upto < a.len(),
        forall|i: int| 0 <= i < a.len() ==> #[trigger] a[i].insert_version == b[i].insert_version,
    ensures
        newest_at_most(a, upto, v) == newest_at_most(b, upto, v),
    decreases upto + 1,
{
    if upto >= 0 {
        assert(a[upto].insert_version == b[upto].insert_version);
        lemma_newest_prefix_same(a, b, v, upto - 1);
    }
}

impl RootIndex {
    /// The roots in the order they became roots, oldest first.
    pub open spec fn history(self) -> Seq<FrugalNodeSt<ValueRootInner>> {
        match self {
            RootIndex::FrugalList(f) => f.nodes@,
            RootIndex::SkipList(s) => skip_history(skip_entries(s.0)),
            RootIndex::LinkedList(l) => list_history(l@),
        }
    }

    pub open spec fn head(self) -> int {
        self.history().len() - 1
    }

    /// The root a reader of snapshot `si` starts from, with its version (see
    /// `root_for`).
    pub open spec fn spec_root_for(self, si: Version) -> Option<(ValueRootInner, Version)> {
        match newest_at_most(self.history(), self.head(), si) {
            Some(i) => Some((self.history()[i].payload, self.history()[i].insert_version)),
            None => if self is LinkedList {
                Some((self.history()[0].payload, self.history()[0].insert_version))
            } else {
                None::<(ValueRootInner, Version)>
            },
        }
    }

    /// Versions grow from the oldest root to the newest.
    pub open spec fn sorted(self) -> bool {
        forall|i: int, j: int|
            0 <= i < j < self.history().len() ==> self.history()[i].insert_version < self.history()[j].insert_version
    }

    pub open spec fn wf(self) -> bool {
        &&& self.history().len() >= 1
        &&& self.history().len() < usize::MAX
        &&& self matches RootIndex::FrugalList(f) ==> f.wf()
    }

    /// A history holding the root `block`, a single leaf, from the start
    /// version on, kept in the structure `variant`; `None` for the B+-tree.
    pub fn new(variant: RootIndexType, block: BlockID) -> (r: Option<Self>)
        ensures
            variant == RootIndexType::BTree <==> r is None,
            r matches Some(ri) ==> {
                &&& ri.wf()
                &&& ri.sorted()
                &&& ri.history().len() == 1
                &&& ri.history()[0].payload == ValueRootInner(block, INIT_TREE_HEIGHT)
                &&& ri.history()[0].insert_version == START_VERSION
                &&& ri.index_kind() == variant
            },
    {
        let inner = ValueRootInner::initial(block);
        match variant {
            RootIndexType::FrugalList => Some(RootIndex::FrugalList(AtomicFrugalList::new(inner, START_VERSION))),
            RootIndexType::SkipList => {
                let mut sk = RootSkipList::new();
                sk.append_root(Root::new(block, START_VERSION, INIT_TREE_HEIGHT));
                Some(RootIndex::SkipList(sk))
            },
            RootIndexType::LinkedList => {
                let mut l: Vec<Root> = Vec::new();
                l.push(Root::new(block, START_VERSION, INIT_TREE_HEIGHT));
                Some(RootIndex::LinkedList(l))
            },
            RootIndexType::BTree => None,
        }
    }

    pub open spec fn index_kind(self) -> RootIndexType {
        match self {
            RootIndex::FrugalList(_) => RootIndexType::FrugalList,
            RootIndex::SkipList(_) => RootIndexType::SkipList,
            RootIndex::LinkedList(_) => RootIndexType::LinkedList,
        }
    }

    /// The structure the history is kept in.
    pub fn index_type(&self) -> (r: RootIndexType)
        ensures
            r == self.index_kind(),
    {
        match self {
            RootIndex::FrugalList(_) => RootIndexType::FrugalList,
            RootIndex::SkipList(_) => RootIndexType::SkipList,
            RootIndex::LinkedList(_) => RootIndexType::LinkedList,
        }
    }

    /// Number of roots in the history.
    pub fn count_roots(&self) -> (r: usize)
        requires
            self.wf(),
        ensures
            r == self.history().len(),
    {
        match self {
            RootIndex::FrugalList(f) => f.len(),
            RootIndex::SkipList(s) => skip_len(&s.0),
            RootIndex::LinkedList(l) => l.len(),
        }
    }

    /// How many roots there were at snapshot `lookup_version`, and how many
    /// there are: in a frugal list the position (from 1) of the newest root
    /// not above the snapshot; in a linked list the newest root alone is
    /// looked at (all roots when it is not above the snapshot, else 1); a
    /// skip list answers `(0, 0)`. A frugal list needs a root not above the
    /// snapshot.
    pub fn root_number_for(&self, lookup_version: Version) -> (r: (usize, usize))
        requires
            self.wf(),
            self is FrugalList ==> newest_at_most(self.history(), self.head(), lookup_version) is Some,
        ensures
            match self {
                RootIndex::FrugalList(_) => r == ((newest_at_most(self.history(), self.head(), lookup_version)->Some_0
                    + 1) as usize, self.history().len() as usize),
                RootIndex::LinkedList(_) => r == (
                    if self.history()[self.head()].insert_version <= lookup_version {
                        self.history().len() as usize
                    } else {
                        1usize
                    },
                    self.history().len() as usize,
                ),
                RootIndex::SkipList(_) => r == (0usize, 0usize),
            },
    {
        match self {
            RootIndex::FrugalList(f) => {
                let n = f.nodes.len();
                let mut i = n;
                while i > 0
                    invariant
                        i <= n,
                        n == f.nodes@.len(),
                        self.history() == f.nodes@,
                        self is FrugalList,
                        newest_at_most(f.nodes@, n - 1, lookup_version) == newest_at_most(f.nodes@, i - 1, lookup_version),
                        newest_at_most(f.nodes@, n - 1, lookup_version) is Some,
                    decreases i,
                {
                    if f.nodes[i - 1].insert_version <= lookup_version {
                        proof {
                            assert(newest_at_most(f.nodes@, i - 1, lookup_version) == Some((i - 1) as int));
                        }
                        return (i, n);
                    }
                    i = i - 1;
                }
                (0, n)
            },
            RootIndex::LinkedList(l) => {
                let n = l.len();
                if l[n - 1].version <= lookup_version {
                    (n, n)
                } else {
                    (1, n)
                }
            },
            RootIndex::SkipList(_) => (0, 0),
        }
    }

    /// The newest root and the version it became the root at.
    pub fn current_root(&self) -> (r: (ValueRootInner, Version))
        requires
            self.wf(),
        ensures
            r.0 == self.history()[self.head()].payload,
            r.1 == self.history()[self.head()].insert_version,
    {
        match self {
            RootIndex::FrugalList(f) => f.current_root(),
            RootIndex::SkipList(s) => {
                let r = s.current_root();
                (ValueRootInner::from(r.block, r.height), r.version)
            },
            RootIndex::LinkedList(l) => {
                let last = l[l.len() - 1];
                (ValueRootInner::from(last.block, last.height), last.version)
            },
        }
    }

    /// The root a reader of snapshot `si` starts from, with its version: the
    /// newest root whose version is at most `si`. When there is none, a
    /// linked list answers its oldest root, the other structures nothing.
    pub fn root_for(&self, si: Version) -> (r: Option<(ValueRootInner, Version)>)
        requires
            self.wf(),
            self.sorted(),
        ensures
            r == self.spec_root_for(si),
    {
        match self {
            RootIndex::FrugalList(f) => {
                proof {
                    assert(f.sorted());
                    assert(f.head() == self.head());
                    lemma_newest_at_most(f.nodes@, f.head(), si);
                }
                let res = match f.find(si) {
                    Some(i) => {
                        let node = f.nodes[i];
                        proof {
                            assert(node == f.nodes@[i as int]);
                        }
                        Some((node.payload, node.insert_version))
                    },
                    None => None,
                };
                proof {
                    assert(self.history() == f.nodes@);
                    assert(res == self.spec_root_for(si));
                }
                res
            },
            RootIndex::SkipList(s) => {
                proof {
                    lemma_last_at_most(skip_entries(s.0), si);
                }
                let found = s.root_for(si);
                proof {
                    let e = skip_entries(s.0);
                    if let Some(i) = last_at_most(e, si) {
                        lemma_last_at_most_range(e, si);
                        assert(skip_history(e)[i] == history_entry(e[i].0, ValueRootInner(e[i].1.0, e[i].1.1)));
                    }
                }
                let res = match found {
                    Some(r) => Some((ValueRootInner::from(r.block, r.height), r.version)),
                    None => None,
                };
                proof {
                    assert(res == self.spec_root_for(si));
                }
                res
            },
            RootIndex::LinkedList(l) => {
                let ghost hist = self.history();
                let mut i = l.len();
                while i > 0
                    invariant
                        i <= l@.len(),
                        hist == list_history(l@),
                        hist == self.history(),
                        self is LinkedList,
                        newest_at_most(hist, hist.len() - 1, si) == newest_at_most(hist, i - 1, si),
                    decreases i,
                {
                    if l[i - 1].version <= si {
                        let r = l[i - 1];
                        proof {
                            assert(hist[i - 1] == history_entry(r.version, ValueRootInner(r.block, r.height)));
                            assert(newest_at_most(hist, i - 1, si) == Some(i - 1));
                        }
                        return Some((ValueRootInner::from(r.block, r.height), r.version));
                    }
                    proof {
                        assert(hist[i - 1].insert_version == l@[i - 1].version);
                    }
                    i = i - 1;
                }
                proof {
                    assert(hist[0] == history_entry(l@[0].version, ValueRootInner(l@[0].block, l@[0].height)));
                }
                let first = l[0];
                Some((ValueRootInner::from(first.block, first.height), first.version))
            },
        }
    }

    /// Appends `root`, valid from `version` on, as the newest root.
    pub fn append_root(&mut self, root: ValueRootInner, version: Version) -> (r: bool)
        requires
            old(self).wf(),
            old(self).sorted(),
            old(self).history().len() < usize::MAX - 1,
            version > old(self).history()[old(self).head()].insert_version,
        ensures
            r,
            final(self).wf(),
            final(self).index_kind() == old(self).index_kind(),
            final(self).sorted(),
            final(self).history().len() == old(self).history().len() + 1,
            final(self).history().take(old(self).history().len() as int) == old(self).history(),
            final(self).history().last().payload == root,
            final(self).history().last().insert_version == version,
    {
        match self {
            RootIndex::FrugalList(f) => {
                f.push(root, version);
            },
            RootIndex::SkipList(s) => {
                proof {
                    let e = skip_entries(s.0);
                    assert forall|i: int| 0 <= i < e.len() implies e[i].0 < version by {
                        assert(skip_history(e)[i].insert_version == e[i].0);
                        if i < e.len() - 1 {
                            assert(skip_history(e)[i].insert_version < skip_history(e)[e.len() - 1].insert_version);
                        }
                    }
                }
                s.append_root(Root::new(root.0, version, root.1));
            },
            RootIndex::LinkedList(l) => {
                l.push(Root::new(root.0, version, root.1));
            },
        }
        proof {
            assert(self.history().take(old(self).history().len() as int) =~= old(self).history());
            let n = old(self).history().len() as int;
            assert forall|i: int, j: int| 0 <= i < j < self.history().len() implies self.history()[i].insert_version
                < self.history()[j].insert_version by {
                if j == n {
                    if i < n - 1 {
                        assert(old(self).history()[i].insert_version < old(self).history()[n - 1].insert_version);
                    }
                    assert(self.history()[i] == old(self).history()[i]);
                } else {
                    assert(self.history()[i] == old(self).history()[i]);
                    assert(self.history()[j] == old(self).history()[j]);
                }
            }
        }
        true
    }

    /// Height of the tree below the newest root.
    pub fn height(&self) -> (r: Height)
        requires
            self.wf(),
        ensures
            r == self.history()[self.head()].payload.1,
    {
        let (inner, _) = self.current_root();
        inner.height()
    }
}

} // verus!
