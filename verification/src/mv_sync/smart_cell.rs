use vstd::prelude::*;
use crate::mv_block::block::{geometry_ok, Block};
use crate::mv_block::block_handle::BlockAllocManager;
use crate::mv_page_model::internal_page::InternalPage;
use crate::mv_page_model::leaf_page::LeafPage;
use crate::mv_page_model::node::Node;
use crate::mv_tree::smo::BlockUnsafeDegree;

verus! {

/// Number of live entries in a page; the upper half of a packed length word.
pub type Active = u32;

/// Number of dead (obsoleted) entries in a page; the lower half of a packed length word.
pub type Dead = u32;

/// A packed length word: live count in the upper 16 bits, dead count in the lower 16 bits.
pub type LenP = u32;

/// The mathematical live count encoded in a packed length word.
pub open spec fn spec_active_len(len: u32) -> int {
    len as int / 0x10000
}

/// The mathematical dead count encoded in a packed length word.
pub open spec fn spec_dead_len(len: u32) -> int {
    len as int % 0x10000
}

/// Live count of a packed length word.
pub fn active_len(len: LenP) -> (r: Active)
    ensures
        r == spec_active_len(len),
        r < 0x10000,
{
    assert(len >> 16u32 == len / 0x10000 && len / 0x10000 < 0x10000) by (bit_vector);
    len >> 16
}

/// Dead count of a packed length word.
pub fn dead_len(len: LenP) -> (r: Dead)
    ensures
        r == spec_dead_len(len),
{
    assert(len & 0xFFFFu32 == len % 0x10000) by (bit_vector);
    len & 0xFF_FF
}

/// Live and dead counts of a packed length word.
pub fn from_len(len: LenP) -> (r: (Active, Dead))
    ensures
        r.0 == spec_active_len(len),
        r.1 == spec_dead_len(len),
{
    (active_len(len), dead_len(len))
}

/// Total number of entries (live plus dead) recorded by a packed length word.
pub fn from_len_sum(len: LenP) -> (r: usize)
    ensures
        r == spec_active_len(len) + spec_dead_len(len),
{
    (active_len(len) + dead_len(len)) as usize
}

/// Packs a live and a dead count into a length word (widened to a latch word).
pub fn from_active_dead(active: Active, dead: Dead) -> (r: u64)
    ensures
        r == ((active << 16u32) | dead) as u64,
        dead < 0x10000 ==> r == (active as int % 0x10000) * 0x10000 + dead,
        r < 0x1_0000_0000,
{
    let packed: u32 = (active << 16) | dead;
    assert(dead < 0x10000 ==> (active << 16u32) | dead == (active % 0x10000) * 0x10000 + dead)
        by (bit_vector);
    packed as u64
}

/// Packing two counts that each fit in 16 bits and unpacking the word gives
/// the two counts back.
pub proof fn lemma_len_roundtrip(active: u32, dead: u32)
    requires
        active < 0x10000,
        dead < 0x10000,
    ensures
        spec_active_len(((active << 16u32) | dead) as u32) == active,
        spec_dead_len(((active << 16u32) | dead) as u32) == dead,
{
    assert((active << 16u32) | dead == active * 0x10000 + dead) by (bit_vector)
        requires active < 0x10000, dead < 0x10000;
}

} // verus!

verus! {

/// A latch word: flags, latch sector (upper 32 bits) and commit sector (the
/// packed length word, lower 32 bits).
pub type LatchVersion = u64;

/// The word describes a tree block (as opposed to plain data).
pub const BLOCK_FLAG_VERSION: LatchVersion = 0x8000_0000_0000_0000;
/// The block is a leaf when this bit is set.
pub const TYPE_FLAG_VERSION: LatchVersion = 0x4000_0000_0000_0000;
pub const PAGE_TYPE_INTERNAL: LatchVersion = 0;
pub const PAGE_TYPE_LEAF: LatchVersion = 0x4000_0000_0000_0000;
/// Set while a writer holds the latch.
pub const WRITE_FLAG_VERSION: LatchVersion = 0x2000_0000_0000_0000;
pub const LATCH_SECTOR_MASK: LatchVersion = 0xFFFF_FFFF_0000_0000;
pub const COMMIT_SECTOR_MASK: LatchVersion = 0x0000_0000_FFFF_FFFF;

/// The packed length word held in the commit sector of a latch word.
pub open spec fn word_commit(v: u64) -> u32 {
    (v as int % 0x1_0000_0000) as u32
}

/// The latch sector of a latch word (commit sector cleared).
pub open spec fn word_latch(v: u64) -> u64 {
    (v as int - v as int % 0x1_0000_0000) as u64
}

pub open spec fn word_is_block(v: u64) -> bool {
    v >= 0x8000_0000_0000_0000
}

pub open spec fn word_is_leaf(v: u64) -> bool {
    (v as int / 0x4000_0000_0000_0000) % 2 == 1
}

pub open spec fn word_write_latched(v: u64) -> bool {
    (v as int / 0x2000_0000_0000_0000) % 2 == 1
}

/// Total entries (live plus dead) recorded in a latch word.
pub open spec fn word_len_sum(v: u64) -> int {
    spec_active_len(word_commit(v)) + spec_dead_len(word_commit(v))
}

pub fn commit_sector(v: LatchVersion) -> (r: LenP)
    ensures
        r == word_commit(v),
{
    assert(v & 0xFFFF_FFFFu64 == v % 0x1_0000_0000) by (bit_vector);
    (v & COMMIT_SECTOR_MASK) as LenP
}

pub fn latch_sector(v: LatchVersion) -> (r: LatchVersion)
    ensures
        r == word_latch(v),
        r % 0x1_0000_0000 == 0,
{
    assert(v & 0xFFFF_FFFF_0000_0000u64 == v - v % 0x1_0000_0000
        && (v & 0xFFFF_FFFF_0000_0000u64) % 0x1_0000_0000 == 0) by (bit_vector);
    v & LATCH_SECTOR_MASK
}

pub fn is_leaf_word(v: LatchVersion) -> (r: bool)
    ensures
        r == word_is_leaf(v),
{
    assert((v & 0x4000_0000_0000_0000u64 == 0x4000_0000_0000_0000u64) == ((v / 0x4000_0000_0000_0000u64)
        % 2 == 1)) by (bit_vector);
    v & TYPE_FLAG_VERSION == PAGE_TYPE_LEAF
}

pub fn is_write_latched_word(v: LatchVersion) -> (r: bool)
    ensures
        r == word_write_latched(v),
{
    assert((v & 0x2000_0000_0000_0000u64 == 0x2000_0000_0000_0000u64) == ((v / 0x2000_0000_0000_0000u64)
        % 2 == 1)) by (bit_vector);
    v & WRITE_FLAG_VERSION == WRITE_FLAG_VERSION
}

/// Facts about the word a writer installs when it takes the latch.
pub proof fn lemma_write_flag(v: u64)
    ensures
        word_write_latched(v | 0x2000_0000_0000_0000u64),
        word_commit(v | 0x2000_0000_0000_0000u64) == word_commit(v),
        word_is_leaf(v | 0x2000_0000_0000_0000u64) == word_is_leaf(v),
        word_is_block(v | 0x2000_0000_0000_0000u64) == word_is_block(v),
        !word_write_latched(v & !0x2000_0000_0000_0000u64),
        word_commit(v & !0x2000_0000_0000_0000u64) == word_commit(v),
        word_is_leaf(v & !0x2000_0000_0000_0000u64) == word_is_leaf(v),
        word_write_latched(v) ==> (v & !0x2000_0000_0000_0000u64) != v,
        !word_write_latched(v) ==> (v & !0x2000_0000_0000_0000u64) == v,
{
    let w: u64 = 0x2000_0000_0000_0000;
    assert(((v | w) / w) % 2 == 1) by (bit_vector) requires w == 0x2000_0000_0000_0000u64;
    assert((v | w) % 0x1_0000_0000 == v % 0x1_0000_0000) by (bit_vector) requires w == 0x2000_0000_0000_0000u64;
    assert(((v | w) / 0x4000_0000_0000_0000u64) % 2 == (v / 0x4000_0000_0000_0000u64) % 2) by (bit_vector)
        requires w == 0x2000_0000_0000_0000u64;
    assert(((v | w) >= 0x8000_0000_0000_0000u64) == (v >= 0x8000_0000_0000_0000u64)) by (bit_vector)
        requires w == 0x2000_0000_0000_0000u64;
    assert(((v & !w) / w) % 2 == 0) by (bit_vector) requires w == 0x2000_0000_0000_0000u64;
    assert((v & !w) % 0x1_0000_0000 == v % 0x1_0000_0000) by (bit_vector) requires w == 0x2000_0000_0000_0000u64;
    assert(((v & !w) / 0x4000_0000_0000_0000u64) % 2 == (v / 0x4000_0000_0000_0000u64) % 2) by (bit_vector)
        requires w == 0x2000_0000_0000_0000u64;
    assert(((v / w) % 2 == 1) ==> (v & !w) != v) by (bit_vector) requires w == 0x2000_0000_0000_0000u64;
    assert(((v / w) % 2 != 1) ==> (v & !w) == v) by (bit_vector) requires w == 0x2000_0000_0000_0000u64;
}

/// Clearing the write flag of a write-latched word keeps its kind and its
/// commit sector.
pub proof fn lemma_clear_write_flag(v: u64)
    requires
        word_write_latched(v),
    ensures
        !word_write_latched(v ^ 0x2000_0000_0000_0000u64),
        word_commit(v ^ 0x2000_0000_0000_0000u64) == word_commit(v),
        word_is_leaf(v ^ 0x2000_0000_0000_0000u64) == word_is_leaf(v),
        word_is_block(v ^ 0x2000_0000_0000_0000u64) == word_is_block(v),
{
    let w: u64 = 0x2000_0000_0000_0000;
    assert(((v / w) % 2 == 1) ==> ((v ^ w) / w) % 2 == 0 && (v ^ w) % 0x1_0000_0000 == v % 0x1_0000_0000
        && ((v ^ w) / 0x4000_0000_0000_0000u64) % 2 == (v / 0x4000_0000_0000_0000u64) % 2
        && ((v ^ w) >= 0x8000_0000_0000_0000u64) == (v >= 0x8000_0000_0000_0000u64)) by (bit_vector)
        requires w == 0x2000_0000_0000_0000u64;
}

/// The write flag lies in the latch sector.
pub proof fn lemma_latch_keeps_write_flag(v: u64)
    ensures
        word_write_latched(word_latch(v)) == word_write_latched(v),
{
    let l = v & 0xFFFF_FFFF_0000_0000u64;
    assert(l == v - v % 0x1_0000_0000 && (l / 0x2000_0000_0000_0000u64) % 2 == (v / 0x2000_0000_0000_0000u64) % 2)
        by (bit_vector)
        requires l == v & 0xFFFF_FFFF_0000_0000u64;
}

/// A writer granted on a free latch word installs a word that carries the
/// write flag, so no second writer is granted while it holds the latch; handing
/// the latch back without a commit (`release`) restores the word exactly.
pub proof fn law_write_latch_roundtrip(v: u64)
    requires
        !word_write_latched(v),
    ensures
        word_write_latched((0x2000_0000_0000_0000u64 | v) as u64),
        ((0x2000_0000_0000_0000u64 | v) as u64 ^ 0x2000_0000_0000_0000u64) == v,
{
    let w: u64 = 0x2000_0000_0000_0000;
    assert(((v / w) % 2 != 1) ==> (((w | v) / w) % 2 == 1 && ((w | v) ^ w) == v)) by (bit_vector)
        requires w == 0x2000_0000_0000_0000u64;
}

/// Facts about a word built from flags, a latch sector and a packed length.
pub proof fn lemma_compose_word(flags: u64, len: u64)
    requires
        flags % 0x1_0000_0000 == 0,
        len < 0x1_0000_0000,
    ensures
        word_commit(flags | len) == len,
        word_latch(flags | len) == flags,
        word_is_leaf(flags | len) == word_is_leaf(flags),
        word_is_block(flags | len) == word_is_block(flags),
        word_write_latched(flags | len) == word_write_latched(flags),
{
    assert((flags | len) % 0x1_0000_0000 == len && (flags | len) - (flags | len) % 0x1_0000_0000 == flags)
        by (bit_vector)
        requires flags % 0x1_0000_0000 == 0, len < 0x1_0000_0000;
    assert(((flags | len) / 0x4000_0000_0000_0000u64) % 2 == (flags / 0x4000_0000_0000_0000u64) % 2
        && ((flags | len) >= 0x8000_0000_0000_0000u64) == (flags >= 0x8000_0000_0000_0000u64)
        && ((flags | len) / 0x2000_0000_0000_0000u64) % 2 == (flags / 0x2000_0000_0000_0000u64) % 2)
        by (bit_vector)
        requires flags % 0x1_0000_0000 == 0, len < 0x1_0000_0000;
}

} // verus!

verus! {

/// A value guarded by a latch word.
pub struct OptCell<E> {
    pub cell_version: LatchVersion,
    pub cell: E,
}

impl<const FAN_OUT: usize, const NUM_RECORDS: usize, P: Copy> OptCell<Block<FAN_OUT, NUM_RECORDS, P>> {
    /// A cell for a tree block: block flag and node type set, no entries committed.
    pub fn new_block(block: Block<FAN_OUT, NUM_RECORDS, P>, is_leaf: bool) -> (r: Self)
        ensures
            r.cell == block,
            word_is_block(r.cell_version),
            word_is_leaf(r.cell_version) == is_leaf,
            !word_write_latched(r.cell_version),
            word_commit(r.cell_version) == 0,
            r.cell_version == (if is_leaf { 0xC000_0000_0000_0000u64 } else { 0x8000_0000_0000_0000u64 }),
    {
        let markers = BLOCK_FLAG_VERSION | if is_leaf { PAGE_TYPE_LEAF } else { PAGE_TYPE_INTERNAL };
        proof {
            let b: u64 = 0x8000_0000_0000_0000;
            let t: u64 = 0x4000_0000_0000_0000;
            assert((b | t) >= b && (((b | t) / t) % 2 == 1) && (((b | t) / 0x2000_0000_0000_0000u64) % 2 == 0)
                && (b | t) % 0x1_0000_0000 == 0 && (b | t) == 0xC000_0000_0000_0000u64) by (bit_vector)
                requires b == 0x8000_0000_0000_0000u64, t == 0x4000_0000_0000_0000u64;
            assert((b | 0u64) == b && b >= b && ((b / t) % 2 == 0) && ((b / 0x2000_0000_0000_0000u64) % 2 == 0)
                && b % 0x1_0000_0000 == 0) by (bit_vector)
                requires b == 0x8000_0000_0000_0000u64, t == 0x4000_0000_0000_0000u64;
        }
        OptCell { cell: block, cell_version: markers }
    }
}

impl<E> OptCell<E> {
    /// A cell for plain data: every flag and counter clear.
    pub fn new_blank(data: E) -> (r: Self)
        ensures
            r.cell == data,
            r.cell_version == 0,
    {
        OptCell { cell: data, cell_version: 0 }
    }

    /// Takes the write latch if the latch word still reads `read_version`;
    /// returns the word now installed.
    pub fn write_lock(&mut self, read_version: LatchVersion) -> (r: Option<LatchVersion>)
        ensures
            final(self).cell == old(self).cell,
            old(self).cell_version == read_version ==> {
                &&& r == Some((0x2000_0000_0000_0000u64 | read_version) as u64)
                &&& final(self).cell_version == (0x2000_0000_0000_0000u64 | read_version) as u64
            },
            old(self).cell_version != read_version ==> r is None && final(self).cell_version
                == old(self).cell_version,
    {
        if self.cell_version == read_version {
            let w = WRITE_FLAG_VERSION | read_version;
            self.cell_version = w;
            Some(w)
        } else {
            None
        }
    }
}

/// A latch-guarded cell as shared by the tree.
pub struct SmartCell<E>(pub OptCell<E>);

/// A cell borrowed under its latch. A reader keeps a snapshot of the latch
/// word; a writer has installed the write flag in the cell and keeps the word
/// it installed. The guard borrows the cell exclusively: latch words change
/// only through guards. A guard has no destructor: it hands the latch
/// back by `release`.
pub struct SmartGuard<'a, E> {
    pub cell_ref: &'a mut SmartCell<E>,
    pub latch: LatchVersion,
    pub writer: bool,
}

impl<'a, E> SmartGuard<'a, E> {
    /// Turns a reader into a writer if the cell's latch word still equals
    /// the reader's snapshot, installing the write flag in the cell.
    pub fn upgrade_write_lock(&mut self) -> (r: bool)
        ensures
            *final(final(self).cell_ref) == *final(old(self).cell_ref),
            old(self).writer ==> r && *final(self) == *old(self),
            !old(self).writer ==> {
                &&& r == (old(self).cell_ref.0.cell_version == old(self).latch)
                &&& r ==> {
                    &&& final(self).writer
                    &&& final(self).latch == (0x2000_0000_0000_0000u64 | old(self).latch) as u64
                    &&& final(self).cell_ref.0.cell_version == final(self).latch
                    &&& final(self).cell_ref.0.cell == old(self).cell_ref.0.cell
                }
                &&& !r ==> *final(self) == *old(self)
            },
    {
        if self.writer {
            return true;
        }
        if self.cell_ref.0.cell_version != self.latch {
            return false;
        }
        match self.cell_ref.0.write_lock(self.latch) {
            Some(w) => {
                self.latch = w;
                self.writer = true;
                true
            },
            None => false,
        }
    }

    /// Live and dead counts recorded in the guard's latch word.
    pub fn active_dead(&self) -> (r: (Active, Dead))
        ensures
            r.0 == spec_active_len(word_commit(self.latch)),
            r.1 == spec_dead_len(word_commit(self.latch)),
    {
        from_len(commit_sector(self.latch))
    }

    /// The guarded cell.
    pub fn cell(&self) -> (r: &SmartCell<E>)
        ensures
            *r == *old(self.cell_ref),
    {
        &*self.cell_ref
    }

    /// Gives the latch back: a writer clears the write flag of the word it
    /// installed and stores it in the cell; a reader leaves the cell as it is.
    pub fn release(self)
        ensures
            self.writer ==> *final(self.cell_ref) == SmartCell(OptCell {
                cell_version: (self.latch ^ 0x2000_0000_0000_0000u64) as u64,
                cell: old(self.cell_ref).0.cell,
            }),
            !self.writer ==> *final(self.cell_ref) == *old(self.cell_ref),
            self.writer && word_write_latched(self.latch) ==> {
                &&& !word_write_latched(final(self.cell_ref).0.cell_version)
                &&& word_commit(final(self.cell_ref).0.cell_version) == word_commit(self.latch)
            },
    {
        proof {
            if self.writer && word_write_latched(self.latch) {
                lemma_clear_write_flag(self.latch);
            }
        }
        if self.writer {
            self.cell_ref.0.cell_version = self.latch ^ WRITE_FLAG_VERSION;
        }
    }
}
impl<E> SmartCell<E> {
    /// Entries (live and dead) recorded in the cell's latch word.
    pub fn len(&self) -> (r: usize)
        ensures
            r == word_len_sum(self.0.cell_version),
    {
        from_len_sum(commit_sector(self.0.cell_version))
    }

    pub fn active_dead_cell(&self) -> (r: (Active, Dead))
        ensures
            r.0 == spec_active_len(word_commit(self.0.cell_version)),
            r.1 == spec_dead_len(word_commit(self.0.cell_version)),
    {
        from_len(commit_sector(self.0.cell_version))
    }

    pub fn active_dead_is_leaf(&self) -> (r: (Active, Dead, bool))
        ensures
            r.0 == spec_active_len(word_commit(self.0.cell_version)),
            r.1 == spec_dead_len(word_commit(self.0.cell_version)),
            r.2 == word_is_leaf(self.0.cell_version),
    {
        let v = self.0.cell_version;
        let (active, dead) = from_len(commit_sector(v));
        (active, dead, is_leaf_word(v))
    }

    /// Block flag, node-type bits, latch sector and entry count of the cell.
    pub fn meta(&self) -> (r: (bool, LatchVersion, LatchVersion, usize))
        ensures
            r.0 == word_is_block(self.0.cell_version),
            r.1 == (if word_is_leaf(self.0.cell_version) { PAGE_TYPE_LEAF } else { PAGE_TYPE_INTERNAL }),
            r.2 == word_latch(self.0.cell_version),
            r.3 == word_len_sum(self.0.cell_version),
    {
        let v = self.0.cell_version;
        assert((v & 0x8000_0000_0000_0000u64 != 0) == (v >= 0x8000_0000_0000_0000u64)) by (bit_vector);
        assert((v & 0x4000_0000_0000_0000u64 == 0x4000_0000_0000_0000u64) || (v & 0x4000_0000_0000_0000u64 == 0))
            by (bit_vector);
        let leaf = is_leaf_word(v);
        proof {
            assert((v & 0x4000_0000_0000_0000u64 == 0x4000_0000_0000_0000u64) == ((v / 0x4000_0000_0000_0000u64)
                % 2 == 1)) by (bit_vector);
        }
        (v & BLOCK_FLAG_VERSION != 0, v & TYPE_FLAG_VERSION, latch_sector(v), from_len_sum(commit_sector(v)))
    }

    /// Marks the cell as a block of the given kind holding `active_delta`
    /// live entries and no dead ones.
    pub fn commit_init(&mut self, active_delta: usize, is_leaf: bool)
        requires
            0 < active_delta < 0x10000,
        ensures
            final(self).0.cell == old(self).0.cell,
            word_is_block(final(self).0.cell_version),
            word_is_leaf(final(self).0.cell_version) == is_leaf,
            !word_write_latched(final(self).0.cell_version),
            spec_active_len(word_commit(final(self).0.cell_version)) == active_delta,
            spec_dead_len(word_commit(final(self).0.cell_version)) == 0,
            final(self).0.cell_version == (if is_leaf { 0xC000_0000_0000_0000u64 } else { 0x8000_0000_0000_0000u64 })
                + active_delta * 0x10000,
    {
        let extra = BLOCK_FLAG_VERSION | if is_leaf { PAGE_TYPE_LEAF } else { PAGE_TYPE_INTERNAL };
        let len = from_active_dead(active_delta as Active, 0);
        proof {
            let b: u64 = 0x8000_0000_0000_0000;
            let t: u64 = 0x4000_0000_0000_0000;
            assert((b | t) >= b && (((b | t) / t) % 2 == 1) && (((b | t) / 0x2000_0000_0000_0000u64) % 2 == 0)
                && (b | t) % 0x1_0000_0000 == 0 && (b | t) == 0xC000_0000_0000_0000u64) by (bit_vector)
                requires b == 0x8000_0000_0000_0000u64, t == 0x4000_0000_0000_0000u64;
            assert((b | 0u64) == b && b >= b && ((b / t) % 2 == 0) && ((b / 0x2000_0000_0000_0000u64) % 2 == 0)
                && b % 0x1_0000_0000 == 0) by (bit_vector)
                requires b == 0x8000_0000_0000_0000u64, t == 0x4000_0000_0000_0000u64;
            lemma_compose_word(extra, len);
            lemma_len_roundtrip(active_delta as u32, 0);
        }
        self.0.cell_version = extra | len;
    }

    /// Installs `latch` with the counts moved by the given deltas; returns the
    /// installed word.
    pub fn commit_delta_from(
        &mut self,
        active_delta: i32,
        dead_delta: i32,
        latch: LatchVersion,
        len: LenP,
    ) -> (r: LatchVersion)
        requires
            latch % 0x1_0000_0000 == 0,
            0 <= spec_active_len(len) + active_delta < 0x10000,
            0 <= spec_dead_len(len) + dead_delta < 0x10000,
        ensures
            final(self).0.cell == old(self).0.cell,
            final(self).0.cell_version == r,
            word_latch(r) == latch,
            spec_active_len(word_commit(r)) == spec_active_len(len) + active_delta,
            spec_dead_len(word_commit(r)) == spec_dead_len(len) + dead_delta,
    {
        let active = active_len(len) as i32 + active_delta;
        let dead = dead_len(len) as i32 + dead_delta;
        let packed = from_active_dead(active as Active, dead as Dead);
        proof {
            lemma_compose_word(latch, packed);
            lemma_len_roundtrip(active as u32, dead as u32);
        }
        let w = latch | packed;
        self.0.cell_version = w;
        w
    }

    pub fn unsafe_borrow(&self) -> (r: &E)
        ensures
            *r == self.0.cell,
    {
        &self.0.cell
    }

    pub fn unsafe_borrow_mut(&mut self) -> (r: &mut E)
        ensures
            *r == old(self).0.cell,
            final(self).0.cell == *final(r),
            final(self).0.cell_version == old(self).0.cell_version,
    {
        &mut self.0.cell
    }

    /// A reader's guard: a snapshot of the latch word with the write flag
    /// cleared.
    pub fn borrow_read<'a>(&'a mut self) -> (r: SmartGuard<'a, E>)
        ensures
            *r.cell_ref == *old(self),
            r.latch == (old(self).0.cell_version & !0x2000_0000_0000_0000u64) as u64,
            !r.writer,
            *final(self) == *final(r.cell_ref),
    {
        let v = self.0.cell_version & !WRITE_FLAG_VERSION;
        SmartGuard { cell_ref: self, latch: v, writer: false }
    }

    /// A writer's guard, granted when no writer holds the latch; the cell's
    /// latch word then carries the write flag.
    pub fn borrow_write<'a>(&'a mut self) -> (r: Option<SmartGuard<'a, E>>)
        ensures
            word_write_latched(old(self).0.cell_version) ==> r is None && *final(self) == *old(self),
            !word_write_latched(old(self).0.cell_version) ==> (match r {
                Some(g) => {
                    &&& g.writer
                    &&& g.latch == (0x2000_0000_0000_0000u64 | old(self).0.cell_version) as u64
                    &&& g.cell_ref.0.cell_version == g.latch
                    &&& word_write_latched(g.cell_ref.0.cell_version)
                    &&& g.cell_ref.0.cell == old(self).0.cell
                    &&& *final(self) == *final(g.cell_ref)
                },
                None => false,
            }),
    {
        proof {
            let v = self.0.cell_version;
            lemma_write_flag(v);
            assert((0x2000_0000_0000_0000u64 | v) == (v | 0x2000_0000_0000_0000u64)) by (bit_vector);
        }
        let mut guard = self.borrow_read();
        if guard.upgrade_write_lock() {
            Some(guard)
        } else {
            guard.release();
            None
        }
    }
}

} // verus!

verus! {

/// A borrowed page of a block, leaf or index.
pub enum PageType<'a, const FAN_OUT: usize, const NUM_RECORDS: usize, P> {
    LeafRef(&'a LeafPage<NUM_RECORDS, P>),
    IndexRef(&'a InternalPage<FAN_OUT>),
}

impl<'a, const FAN_OUT: usize, const NUM_RECORDS: usize, P> PageType<'a, FAN_OUT, NUM_RECORDS, P> {
    /// The leaf page; only for a borrowed leaf.
    pub fn as_leaf_page(self) -> (r: &'a LeafPage<NUM_RECORDS, P>)
        requires
            self is LeafRef,
        ensures
            self matches PageType::LeafRef(l) && r == l,
    {
        match self {
            PageType::LeafRef(leaf) => leaf,
            PageType::IndexRef(_) => vstd::pervasive::unreached(),
        }
    }
}

/// Node type, latch sector and counts decoded from a latch word.
pub open spec fn spec_meta_block(v: u64) -> (bool, LatchVersion, Active, Dead) {
    (
        word_is_leaf(v),
        word_latch(v),
        spec_active_len(word_commit(v)) as u32,
        spec_dead_len(word_commit(v)) as u32,
    )
}

/// Node type, write flag and counts decoded from a latch word.
pub open spec fn spec_meta_latched(v: u64) -> (bool, bool, Active, Dead) {
    (
        word_is_leaf(v),
        word_write_latched(v),
        spec_active_len(word_commit(v)) as u32,
        spec_dead_len(word_commit(v)) as u32,
    )
}

fn decode_meta_block(v: LatchVersion) -> (r: (bool, LatchVersion, Active, Dead))
    ensures
        r == spec_meta_block(v),
{
    let commit = commit_sector(v);
    (is_leaf_word(v), latch_sector(v), active_len(commit), dead_len(commit))
}

fn decode_meta_latched(v: LatchVersion) -> (r: (bool, bool, Active, Dead))
    ensures
        r == spec_meta_latched(v),
{
    let commit = commit_sector(v);
    (is_leaf_word(v), is_write_latched_word(v), active_len(commit), dead_len(commit))
}

/// How a root block has to be reorganised: an index root with a single live
/// child collapses, a full root splits.
pub open spec fn spec_unsafe_degree_root(active: int, dead: int, is_leaf: bool, overflow: int) -> BlockUnsafeDegree {
    if active == 1 && !is_leaf {
        BlockUnsafeDegree::ActiveUnderflow
    } else if active + dead >= overflow {
        BlockUnsafeDegree::Overflow
    } else {
        BlockUnsafeDegree::Safe
    }
}

/// How an inner block has to be reorganised: at most 20 % live entries is an
/// underflow; reaching the overflow count is an overflow, unless at most 40 %
/// of the entries are live, which calls for a merge as well.
pub open spec fn spec_unsafe_degree(active: int, dead: int, overflow: int, f20: int, f40: int) -> BlockUnsafeDegree {
    if active <= f20 {
        BlockUnsafeDegree::ActiveUnderflow
    } else if active + dead >= overflow && active <= f40 {
        BlockUnsafeDegree::ActiveUnderflow
    } else if active + dead >= overflow {
        BlockUnsafeDegree::Overflow
    } else {
        BlockUnsafeDegree::Safe
    }
}

impl<const FAN_OUT: usize, const NUM_RECORDS: usize, P: Copy> SmartCell<Block<FAN_OUT, NUM_RECORDS, P>> {
    pub open spec fn spec_overflow_units(is_leaf: bool) -> int {
        if is_leaf { NUM_RECORDS as int } else { FAN_OUT - 1 }
    }

    pub fn meta_block(&self) -> (r: (bool, LatchVersion, Active, Dead))
        ensures
            r == spec_meta_block(self.0.cell_version),
    {
        decode_meta_block(self.0.cell_version)
    }

    pub fn meta_block_is_leaf_latched_load(&self) -> (r: (bool, bool, Active, Dead))
        ensures
            r == spec_meta_latched(self.0.cell_version),
    {
        decode_meta_latched(self.0.cell_version)
    }

    /// Whether the latch word marks the block as a leaf.
    pub fn is_leaf(&self) -> (r: bool)
        ensures
            r == word_is_leaf(self.0.cell_version),
    {
        let (_is_block, block_type, _latch, _len_sum) = self.meta();
        block_type == PAGE_TYPE_LEAF
    }

    /// Entries (live and dead) at which a block of this kind is full.
    pub fn overflow_units_count(&self, is_leaf: bool) -> (r: usize)
        requires
            FAN_OUT >= 1,
        ensures
            r == Self::spec_overflow_units(is_leaf),
    {
        if is_leaf {
            BlockAllocManager::<FAN_OUT, NUM_RECORDS>::overflow_records_count()
        } else {
            BlockAllocManager::<FAN_OUT, NUM_RECORDS>::overflow_keys_count()
        }
    }

    /// Reorganisation a root block needs, judged from its latch word.
    pub fn unsafe_degree_root(&self) -> (r: BlockUnsafeDegree)
        requires
            FAN_OUT >= 1,
        ensures
            r == spec_unsafe_degree_root(
                spec_active_len(word_commit(self.0.cell_version)),
                spec_dead_len(word_commit(self.0.cell_version)),
                word_is_leaf(self.0.cell_version),
                Self::spec_overflow_units(word_is_leaf(self.0.cell_version)),
            ),
    {
        let (active, dead, is_leaf) = self.active_dead_is_leaf();
        let (active, dead) = (active as usize, dead as usize);
        if active == 1 && !is_leaf {
            BlockUnsafeDegree::ActiveUnderflow
        } else if active + dead >= self.overflow_units_count(is_leaf) {
            BlockUnsafeDegree::Overflow
        } else {
            BlockUnsafeDegree::Safe
        }
    }

    /// Reorganisation an inner block needs, judged from its latch word.
    pub fn unsafe_degree(&self) -> (r: BlockUnsafeDegree)
        requires
            geometry_ok(FAN_OUT, NUM_RECORDS),
        ensures
            ({
                let leaf = word_is_leaf(self.0.cell_version);
                let m = Block::<FAN_OUT, NUM_RECORDS, P>::spec_max_units(leaf);
                r == spec_unsafe_degree(
                    spec_active_len(word_commit(self.0.cell_version)),
                    spec_dead_len(word_commit(self.0.cell_version)),
                    Self::spec_overflow_units(leaf),
                    (m + 4) / 5,
                    (2 * m + 4) / 5,
                )
            }),
    {
        let (is_leaf, _latch, active, dead) = self.meta_block();
        let (active, dead) = (active as usize, dead as usize);
        if active <= self.0.cell.filling_20_percent(is_leaf) {
            BlockUnsafeDegree::ActiveUnderflow
        } else {
            let overflow_units_count = self.overflow_units_count(is_leaf);
            let is_overflow = active + dead >= overflow_units_count;
            if is_overflow && active <= self.0.cell.filling_40_percent(is_leaf) {
                BlockUnsafeDegree::ActiveUnderflow
            } else if is_overflow {
                BlockUnsafeDegree::Overflow
            } else {
                BlockUnsafeDegree::Safe
            }
        }
    }

    /// The entry count from the latch word, with the block's page.
    pub fn as_page_ref(&self) -> (r: (usize, PageType<'_, FAN_OUT, NUM_RECORDS, P>))
        ensures
            r.0 == word_len_sum(self.0.cell_version),
            match self.0.cell.node_data {
                Node::Leaf(l) => r.1 == PageType::<FAN_OUT, NUM_RECORDS, P>::LeafRef(&l),
                Node::Index(i) => r.1 == PageType::<FAN_OUT, NUM_RECORDS, P>::IndexRef(&i),
            },
    {
        let (_is_leaf, _latch, active, dead) = self.meta_block();
        let n = (active + dead) as usize;
        match &self.0.cell.node_data {
            Node::Leaf(l) => (n, PageType::LeafRef(l)),
            Node::Index(i) => (n, PageType::IndexRef(i)),
        }
    }
}

impl<'a, const FAN_OUT: usize, const NUM_RECORDS: usize, P: Copy> SmartGuard<'a, Block<FAN_OUT, NUM_RECORDS, P>> {
    pub fn meta_block(&self) -> (r: (bool, LatchVersion, Active, Dead))
        ensures
            r == spec_meta_block(self.latch),
    {
        decode_meta_block(self.latch)
    }

    pub fn meta_block_is_leaf_latched(&self) -> (r: (bool, bool, Active, Dead))
        ensures
            r == spec_meta_latched(self.latch),
    {
        decode_meta_latched(self.latch)
    }

    /// A writer publishes a change of the live and dead counts: the new word
    /// (same latch sector, moved counts) is stored in the cell and kept by
    /// the guard.
    pub fn commit_delta(&mut self, active_delta: i32, dead_delta: i32)
        requires
            old(self).writer,
            0 <= spec_active_len(word_commit(old(self).latch)) + active_delta < 0x10000,
            0 <= spec_dead_len(word_commit(old(self).latch)) + dead_delta < 0x10000,
        ensures
            *final(final(self).cell_ref) == *final(old(self).cell_ref),
            final(self).writer,
            final(self).cell_ref.0.cell == old(self).cell_ref.0.cell,
            final(self).cell_ref.0.cell_version == final(self).latch,
            word_latch(final(self).latch) == word_latch(old(self).latch),
            word_write_latched(final(self).latch) == word_write_latched(old(self).latch),
            spec_active_len(word_commit(final(self).latch)) == spec_active_len(word_commit(old(self).latch))
                + active_delta,
            spec_dead_len(word_commit(final(self).latch)) == spec_dead_len(word_commit(old(self).latch))
                + dead_delta,
    {
        let latch = latch_sector(self.latch);
        let len = commit_sector(self.latch);
        let w = self.cell_ref.commit_delta_from(active_delta, dead_delta, latch, len);
        proof {
            lemma_latch_keeps_write_flag(self.latch);
            lemma_latch_keeps_write_flag(w);
        }
        self.latch = w;
    }
}

impl<const FAN_OUT: usize, const NUM_RECORDS: usize, P: Copy> Block<FAN_OUT, NUM_RECORDS, P> {
    /// Wraps the block into a latch-guarded cell marked with its node type.
    pub fn into_cell(self) -> (r: SmartCell<Block<FAN_OUT, NUM_RECORDS, P>>)
        ensures
            r.0.cell == self,
            word_is_block(r.0.cell_version),
            word_is_leaf(r.0.cell_version) == self.node_data is Leaf,
            !word_write_latched(r.0.cell_version),
            word_commit(r.0.cell_version) == 0,
    {
        let leaf = self.is_leaf();
        SmartCell(OptCell::new_block(self, leaf))
    }
}

} // verus!

verus! {

/// The latch a cell is guarded with.
#[derive(Clone, Copy, PartialEq, Eq, Structural)]
pub enum LatchType {
    Exclusive,
    ReadersWriter,
    Optimistic,
    Hybrid,
    NoLatch,
    LightWeightHybrid,
}

} // verus!
