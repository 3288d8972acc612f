use vstd::prelude::*;
use crate::mv_record_model::version_info::Version;
use crate::mv_tx_model::transaction_result::SnapShot;

verus! {

/// Height of a node's skip tower.
pub type TowerLevel = usize;

/// Level of nodes that only link to their predecessor.
pub const FLAT_LEVEL: TowerLevel = 0;

/// Level of the oldest node, which ends every walk.
pub const SENTINEL_LEVEL: TowerLevel = usize::MAX;

/// `rand::random_ratio`: true with probability `numerator / denominator`.
/// The crate documents that a zero numerator never and a numerator equal to
/// the denominator always yields true; it panics when the denominator is
/// zero or smaller than the numerator, which `requires` excludes. Which
/// value comes back otherwise is left to chance and not stated.
#[verifier::external_body]
fn random_ratio(numerator: u32, denominator: u32) -> (r: bool)
    requires
        0 < denominator,
        numerator <= denominator,
    ensures
        numerator == 0 ==> !r,
        numerator == denominator ==> r,
{
    rand::random_ratio(numerator, denominator)
}

/// A fair coin toss.
fn coin_toss() -> bool {
    random_ratio(1, 2)
}

/// The level of a new tower node: 1 plus the number of heads in a row,
/// kept below the sentinel level.
pub fn pick_level() -> (r: TowerLevel)
    ensures
        1 <= r < SENTINEL_LEVEL,
{
    let mut lvl: TowerLevel = 1;
    while lvl < SENTINEL_LEVEL - 1 && coin_toss()
        invariant
            1 <= lvl < SENTINEL_LEVEL,
        decreases SENTINEL_LEVEL - lvl,
    {
        lvl = lvl + 1;
    }
    lvl
}

/// One entry of a root history: a payload valid from `insert_version` on,
/// a link to the entry before it and a skip link to an older entry. Links are
/// positions in the history, oldest first.
#[derive(Clone, Copy)]
pub struct FrugalNodeSt<P> {
    pub next: Option<usize>,
    pub v_ridgy: Option<usize>,
    pub payload: P,
    pub insert_version: Version,
    pub level: TowerLevel,
}

impl<P> FrugalNodeSt<P> {
    pub fn new_with(
        payload: P,
        insert_version: Version,
        level: TowerLevel,
        next: Option<usize>,
        v_ridgy: Option<usize>,
    ) -> (r: Self)
        ensures
            r == (FrugalNodeSt { next, v_ridgy, payload, insert_version, level }),
    {
        FrugalNodeSt { next, v_ridgy, payload, insert_version, level }
    }

    pub fn new(payload: P, insert_version: Version, level: TowerLevel) -> (r: Self)
        ensures
            r == (FrugalNodeSt { next: None, v_ridgy: None, payload, insert_version, level }),
    {
        Self::new_with(payload, insert_version, level, None, None)
    }
}

/// A history of versioned roots with skip links. The newest entry is the
/// head; every entry links to the one before it and skips back to an older
/// one, and the oldest entry is a sentinel that ends every walk.
pub struct AtomicFrugalList<P> {
    pub nodes: Vec<FrugalNodeSt<P>>,
}

/// The newest position at or below `upto` whose version is at most `v`.
pub open spec fn newest_at_most<P>(nodes: Seq<FrugalNodeSt<P>>, upto: int, v: Version) -> Option<int>
    decreases upto + 1,
{
    if upto < 0 {
        None
    } else if nodes[upto].insert_version <= v {
        Some(upto)
    } else {
        newest_at_most(nodes, upto - 1, v)
    }
}

pub proof fn lemma_newest_at_most<P>(nodes: Seq<FrugalNodeSt<P>>, upto: int, v: Version)
    requires
        upto < nodes.len(),
    ensures
        match newest_at_most(nodes, upto, v) {
            None => forall|k: int| 0 <= k <= upto ==> nodes[k].insert_version > v,
            Some(i) => 0 <= i <= upto && nodes[i].insert_version <= v
                && forall|k: int| i < k <= upto ==> nodes[k].insert_version > v,
        },
    decreases upto + 1,
{
    if upto >= 0 && nodes[upto].insert_version > v {
        lemma_newest_at_most(nodes, upto - 1, v);
    }
}

impl<P: Copy> AtomicFrugalList<P> {
    pub open spec fn wf(self) -> bool {
        &&& self.nodes@.len() >= 1
        &&& self.nodes@[0].level == SENTINEL_LEVEL
        &&& self.nodes@[0].next is None
        &&& self.nodes@[0].v_ridgy is None
        &&& forall|i: int|
            #![trigger self.nodes@[i]]
            0 < i < self.nodes@.len() ==> {
                &&& self.nodes@[i].level < SENTINEL_LEVEL
                &&& self.nodes@[i].next == Some((i - 1) as usize)
                &&& self.nodes@[i].v_ridgy matches Some(j) && j < i
            }
    }

    /// Versions grow from the oldest entry to the head.
    pub open spec fn sorted(self) -> bool {
        forall|i: int, j: int|
            0 <= i < j < self.nodes@.len() ==> self.nodes@[i].insert_version < self.nodes@[j].insert_version
    }

    pub open spec fn head(self) -> int {
        self.nodes@.len() - 1
    }

    /// A history holding one root, valid from `insert_version` on.
    pub fn new(payload: P, insert_version: Version) -> (r: Self)
        ensures
            r.wf(),
            r.sorted(),
            r.nodes@ == seq![FrugalNodeSt { next: None, v_ridgy: None, payload, insert_version, level: SENTINEL_LEVEL }],
    {
        let mut nodes = Vec::new();
        nodes.push(FrugalNodeSt::new(payload, insert_version, SENTINEL_LEVEL));
        AtomicFrugalList { nodes }
    }

    /// The newest root and the version it is valid from.
    pub fn current_root(&self) -> (r: (P, SnapShot))
        requires
            self.wf(),
        ensures
            r.0 == self.nodes@[self.head()].payload,
            r.1 == self.nodes@[self.head()].insert_version,
    {
        let h = self.nodes.len() - 1;
        (self.nodes[h].payload, self.nodes[h].insert_version)
    }

    /// A walk from the head to the oldest entry along the `next` links.
    pub fn iter(&self) -> (r: FrugalVersionIterator)
        requires
            self.wf(),
        ensures
            r.current is Some && r.current->0 == self.head(),
    {
        FrugalVersionIterator { current: Some(self.nodes.len() - 1) }
    }

    /// Number of roots in the history, counted by walking it.
    pub fn len(&self) -> (r: usize)
        requires
            self.wf(),
        ensures
            r == self.nodes@.len(),
    {
        let mut it = self.iter();
        let mut count: usize = 0;
        let total = self.nodes.len();

        while it.current.is_some()
            invariant
                self.wf(),
                it.current is Some ==> it.current->0 < self.nodes@.len() && count + it.current->0 + 1
                    == self.nodes@.len(),
                it.current is None ==> count == self.nodes@.len(),
                total == self.nodes@.len(),
            decreases match it.current {
                Some(c) => c + 1,
                None => 0,
            },
        {
            let _ = it.next(self);
            count = count + 1;
        }
        count
    }

    /// Adds a root valid from `insert_version` on; a coin toss decides whether
    /// the new head gets a skip tower.
    pub fn push(&mut self, payload: P, insert_version: Version)
        requires
            old(self).wf(),
            old(self).nodes@.len() < usize::MAX,
        ensures
            final(self).wf(),
            final(self).nodes@.len() == old(self).nodes@.len() + 1,
            final(self).nodes@.take(old(self).nodes@.len() as int) == old(self).nodes@,
            final(self).nodes@.last().payload == payload,
            final(self).nodes@.last().insert_version == insert_version,
    {
        self.append(payload, insert_version);
    }

    fn append(&mut self, payload: P, insert_version: Version)
        requires
            old(self).wf(),
            old(self).nodes@.len() < usize::MAX,
        ensures
            final(self).wf(),
            final(self).nodes@.len() == old(self).nodes@.len() + 1,
            final(self).nodes@.take(old(self).nodes@.len() as int) == old(self).nodes@,
            final(self).nodes@.last().payload == payload,
            final(self).nodes@.last().insert_version == insert_version,
    {
        if coin_toss() {
            self.append_tower(payload, insert_version)
        } else {
            self.append_next(payload, insert_version)
        }
    }

    /// Adds a flat head that skips to the previous head.
    pub fn append_next(&mut self, payload: P, insert_version: Version)
        requires
            old(self).wf(),
            old(self).nodes@.len() < usize::MAX,
        ensures
            final(self).wf(),
            final(self).nodes@ == old(self).nodes@.push(
                FrugalNodeSt {
                    next: Some(old(self).head() as usize),
                    v_ridgy: Some(old(self).head() as usize),
                    payload,
                    insert_version,
                    level: FLAT_LEVEL,
                },
            ),
    {
        let head = self.nodes.len() - 1;
        let node = FrugalNodeSt::new_with(payload, insert_version, FLAT_LEVEL, Some(head), Some(head));
        self.nodes.push(node);
        proof {
            assert forall|i: int| 0 < i < self.nodes@.len() implies {
                &&& #[trigger] self.nodes@[i].level < SENTINEL_LEVEL
                &&& self.nodes@[i].next == Some((i - 1) as usize)
                &&& self.nodes@[i].v_ridgy matches Some(j) && j < i
            } by {
                if i < self.nodes@.len() - 1 {
                    assert(self.nodes@[i] == old(self).nodes@[i]);
                }
            }
        }
    }

    /// Adds a head with a random tower level whose skip link points to the
    /// newest older entry of at least that level.
    pub fn append_tower(&mut self, payload: P, insert_version: Version)
        requires
            old(self).wf(),
            old(self).nodes@.len() < usize::MAX,
        ensures
            final(self).wf(),
            final(self).nodes@.len() == old(self).nodes@.len() + 1,
            final(self).nodes@.take(old(self).nodes@.len() as int) == old(self).nodes@,
            ({
                let n = final(self).nodes@.last();
                &&& n.payload == payload
                &&& n.insert_version == insert_version
                &&& n.next == Some(old(self).head() as usize)
                &&& 1 <= n.level < SENTINEL_LEVEL
                &&& n.v_ridgy matches Some(j) && old(self).nodes@[j as int].level >= n.level
            }),
    {
        let head = self.nodes.len() - 1;
        let level = pick_level();
        let mut curr = head;
        while self.nodes[curr].level < level
            invariant
                self.wf(),
                curr < self.nodes@.len(),
                *self == *old(self),
            decreases curr,
        {
            curr = match self.nodes[curr].v_ridgy {
                Some(next) => next,
                None => vstd::pervasive::unreached(),
            };
        }
        let node = FrugalNodeSt::new_with(payload, insert_version, level, Some(head), Some(curr));
        self.nodes.push(node);
        proof {
            assert(self.nodes@.take(old(self).nodes@.len() as int) =~= old(self).nodes@);
            assert forall|i: int| 0 < i < self.nodes@.len() implies {
                &&& #[trigger] self.nodes@[i].level < SENTINEL_LEVEL
                &&& self.nodes@[i].next == Some((i - 1) as usize)
                &&& self.nodes@[i].v_ridgy matches Some(j) && j < i
            } by {
                if i < self.nodes@.len() - 1 {
                    assert(self.nodes@[i] == old(self).nodes@[i]);
                }
            }
        }
    }

    /// Starting at position `curr`, the newest entry at or before it whose
    /// version is at most `look_up_version`, following skip links where they
    /// do not jump past it. In a history with growing versions this is exactly
    /// that entry; in any history, a found entry has a version at most
    /// `look_up_version`.
    pub fn find_from(&self, curr: usize, look_up_version: Version) -> (r: Option<usize>)
        requires
            self.wf(),
            curr < self.nodes@.len(),
        ensures
            r matches Some(i) ==> i <= curr && self.nodes@[i as int].insert_version <= look_up_version,
            self.sorted() ==> r == match newest_at_most(self.nodes@, curr as int, look_up_version) {
                Some(i) => Some(i as usize),
                None => None::<usize>,
            },
    {
        let mut curr = curr;
        let ghost start = curr;
        proof {
            lemma_newest_at_most(self.nodes@, start as int, look_up_version);
        }
        while self.nodes[curr].level < SENTINEL_LEVEL && self.nodes[curr].insert_version > look_up_version
            invariant
                self.wf(),
                curr <= start < self.nodes@.len(),
                self.sorted() ==> forall|k: int|
                    curr < k <= start ==> self.nodes@[k].insert_version > look_up_version,
            decreases curr,
        {
            let node = self.nodes[curr];
            proof {
                assert(self.nodes@[curr as int].next == Some((curr - 1) as usize));
            }
            match node.v_ridgy {
                Some(v_ridgy) if self.nodes[v_ridgy].insert_version > look_up_version => {
                    proof {
                        if self.sorted() {
                            assert forall|k: int| v_ridgy < k <= start implies self.nodes@[k].insert_version
                                > look_up_version by {
                                if k <= curr {
                                    assert(self.nodes@[v_ridgy as int].insert_version < self.nodes@[k].insert_version
                                        || k == v_ridgy);
                                }
                            }
                        }
                    }
                    curr = v_ridgy;
                },
                _ => {
                    curr = match node.next {
                        Some(n) => n,
                        None => vstd::pervasive::unreached(),
                    };
                },
            }
        }
        if self.nodes[curr].insert_version <= look_up_version {
            proof {
                lemma_newest_at_most(self.nodes@, start as int, look_up_version);
            }
            Some(curr)
        } else {
            proof {
                if self.sorted() {
                    assert(curr == 0);
                    lemma_newest_at_most(self.nodes@, start as int, look_up_version);
                    assert forall|k: int| 0 <= k <= start implies self.nodes@[k].insert_version > look_up_version by {
                        if k > 0 {
                        }
                    }
                }
            }
            None
        }
    }

    /// The position of the newest root whose version is at most `look_up_version`.
    pub fn find(&self, look_up_version: Version) -> (r: Option<usize>)
        requires
            self.wf(),
        ensures
            r matches Some(i) ==> i < self.nodes@.len() && self.nodes@[i as int].insert_version <= look_up_version,
            self.sorted() ==> r == match newest_at_most(self.nodes@, self.head(), look_up_version) {
                Some(i) => Some(i as usize),
                None => None::<usize>,
            },
    {
        self.find_from(self.nodes.len() - 1, look_up_version)
    }
}

/// A walk over a root history from the newest entry to the oldest.
pub struct FrugalVersionIterator {
    pub current: Option<usize>,
}

impl FrugalVersionIterator {
    /// Hands out the current position and moves to the entry before it.
    pub fn next<P: Copy>(&mut self, list: &AtomicFrugalList<P>) -> (r: Option<usize>)
        requires
            list.wf(),
            old(self).current matches Some(c) ==> c < list.nodes@.len(),
        ensures
            r == old(self).current,
            match old(self).current {
                Some(c) => final(self).current == list.nodes@[c as int].next,
                None => final(self).current is None,
            },
            final(self).current matches Some(c) ==> c < list.nodes@.len(),
    {
        match self.current {
            Some(curr) => {
                self.current = list.nodes[curr].next;
                proof {
                    if curr > 0 {
                        assert(list.nodes@[curr as int].next == Some((curr - 1) as usize));
                    }
                }
                Some(curr)
            },
            None => None,
        }
    }
}

} // verus!
