use vstd::prelude::*;
use std::collections::VecDeque;
use dashmap::DashMap;
use crate::mv_page_model::BlockID;
use crate::mv_test::{push_le_bytes, spec_le_bytes};
use crate::mv_sync::smart_cell::{
    active_len, dead_len, from_active_dead, lemma_len_roundtrip, spec_active_len, spec_dead_len,
};

verus! {

/// Bytes of one page frame.
pub const PAGE_SIZE: usize = 4096;

/// `block_id` of a frame that holds no page.
pub const EMPTY_PAGE: u64 = u64::MAX;

pub type FrameId = u32;

/// Page header layout: block id (8 bytes), node type (1), live count (2, little
/// endian), dead count (2, little endian), padding.
pub const PAGE_HEADER_SIZE: usize = 16;
pub const PAGE_HEADER_LIVE_OFF: usize = 9;
pub const PAGE_HEADER_DEAD_OFF: usize = 11;
pub const PAGE_HEADER_TYPE_OFF: usize = 8;

/// Most reader threads the epoch table tracks.
pub const MAX_THREADS: usize = 256;

/// Slot value of a thread that is not inside a read section.
pub const EPOCH_SENTINEL: u64 = u64::MAX;

/// The kind of node a frame holds (written once per frame).
#[derive(Clone, Copy, PartialEq, Eq, Structural)]
pub enum NodeType {
    Internal,
    Leaf,
    Root,
}

impl NodeType {
    /// The byte a node type is stored as.
    pub open spec fn byte(self) -> u8 {
        match self {
            NodeType::Internal => 0u8,
            NodeType::Leaf => 1u8,
            NodeType::Root => 2u8,
        }
    }

    /// The byte a node type is stored as.
    pub fn as_u8(&self) -> (r: u8)
        ensures
            r == self.byte(),
    {
        match self {
            NodeType::Internal => 0,
            NodeType::Leaf => 1,
            NodeType::Root => 2,
        }
    }

    /// The node type stored as `v`, if `v` encodes one.
    pub fn try_from(v: u8) -> (r: Result<NodeType, ()>)
        ensures
            v == 0 ==> r == Ok::<NodeType, ()>(NodeType::Internal),
            v == 1 ==> r == Ok::<NodeType, ()>(NodeType::Leaf),
            v == 2 ==> r == Ok::<NodeType, ()>(NodeType::Root),
            v > 2 ==> r is Err,
    {
        match v {
            0 => Ok(NodeType::Internal),
            1 => Ok(NodeType::Leaf),
            2 => Ok(NodeType::Root),
            _ => Err(()),
        }
    }
}

/// A sequence lock: an even version is unlocked, an odd one write-locked.
pub struct OlcLatch {
    pub version: u64,
}

impl OlcLatch {
    pub fn new() -> (r: Self)
        ensures
            r.version == 0,
    {
        OlcLatch { version: 0 }
    }

    pub fn reset(&mut self)
        ensures
            final(self).version == 0,
    {
        self.version = 0;
    }

    pub fn version(&self) -> (r: u64)
        ensures
            r == self.version,
    {
        self.version
    }

    /// Takes the write lock if the version still reads `seen` and `seen` is
    /// unlocked.
    pub fn try_write_lock(&mut self, seen: u64) -> (r: bool)
        ensures
            r == (old(self).version == seen && seen % 2 == 0 && seen < u64::MAX),
            r ==> final(self).version == seen + 1,
            !r ==> final(self).version == old(self).version,
    {
        if self.version == seen && seen % 2 == 0 && seen < u64::MAX {
            self.version = seen + 1;
            true
        } else {
            false
        }
    }

    /// Releases the write lock, moving to the next unlocked version.
    pub fn write_unlock(&mut self)
        requires
            old(self).version % 2 == 1,
            old(self).version < u64::MAX,
        ensures
            final(self).version == old(self).version + 1,
    {
        self.version = self.version + 1;
    }
}

/// One slot of the buffer pool: a page of bytes and its in-memory metadata.
pub struct Frame {
    pub latch: OlcLatch,
    pub node_type: u8,
    /// Packed live/dead counts of the page.
    pub len: u32,
    pub block_id: BlockID,
    pub pin_count: u32,
    pub is_dirty: bool,
    pub last_epoch: u64,
    pub data: Vec<u8>,
}

/// Little-endian value of two bytes.
pub open spec fn le_u16(b0: u8, b1: u8) -> int {
    b0 as int + 256 * b1 as int
}

/// Two frames agree on everything but their page bytes.
pub open spec fn same_meta(a: Frame, b: Frame) -> bool {
    &&& a.latch == b.latch
    &&& a.node_type == b.node_type
    &&& a.len == b.len
    &&& a.block_id == b.block_id
    &&& a.pin_count == b.pin_count
    &&& a.is_dirty == b.is_dirty
    &&& a.last_epoch == b.last_epoch
}

/// The page bytes of `fr` with the live/dead counters and the node type
/// written into the header.
pub open spec fn synced_data(fr: Frame) -> Seq<u8> {
    let live = spec_active_len(fr.len);
    let dead = spec_dead_len(fr.len);
    fr.data@.update(PAGE_HEADER_LIVE_OFF as int, (live % 256) as u8).update(
        PAGE_HEADER_LIVE_OFF + 1,
        (live / 256) as u8,
    ).update(PAGE_HEADER_DEAD_OFF as int, (dead % 256) as u8).update(
        PAGE_HEADER_DEAD_OFF + 1,
        (dead / 256) as u8,
    ).update(PAGE_HEADER_TYPE_OFF as int, fr.node_type)
}

impl Frame {
    pub open spec fn wf(self) -> bool {
        self.data@.len() == PAGE_SIZE
    }

    /// A free frame: no page, unpinned, clean, zeroed, holding a leaf type.
    pub fn new() -> (r: Self)
        ensures
            r.wf(),
            r.latch.version == 0,
            r.node_type == 1,
            r.len == 0,
            r.block_id == EMPTY_PAGE,
            r.pin_count == 0,
            !r.is_dirty,
            r.last_epoch == 0,
            forall|i: int| 0 <= i < PAGE_SIZE ==> r.data@[i] == 0,
    {
        let mut data: Vec<u8> = Vec::new();
        let mut i: usize = 0;
        while i < PAGE_SIZE
            invariant
                i <= PAGE_SIZE,
                data@.len() == i,
                forall|j: int| 0 <= j < i ==> data@[j] == 0,
            decreases PAGE_SIZE - i,
        {
            data.push(0);
            i = i + 1;
        }
        Frame {
            latch: OlcLatch::new(),
            node_type: NodeType::Leaf.as_u8(),
            len: 0,
            block_id: EMPTY_PAGE,
            pin_count: 0,
            is_dirty: false,
            last_epoch: epoch_zero(),
            data,
        }
    }

    /// Resets the in-memory metadata for a page that is about to be loaded.
    pub fn reset_metadata(&mut self, new_block_id: BlockID, epoch: u64)
        ensures
            final(self).latch.version == 0,
            !final(self).is_dirty,
            final(self).pin_count == 0,
            final(self).last_epoch == epoch,
            final(self).block_id == new_block_id,
            final(self).node_type == old(self).node_type,
            final(self).len == old(self).len,
            final(self).data == old(self).data,
    {
        self.latch.reset();
        self.is_dirty = false;
        self.pin_count = 0;
        self.last_epoch = epoch;
        self.block_id = new_block_id;
    }

    /// Reads the live/dead counters and the node type from the page header.
    pub fn rebuild_len_from_header(&mut self)
        requires
            old(self).wf(),
        ensures
            final(self).wf(),
            final(self).data == old(self).data,
            spec_active_len(final(self).len) == le_u16(
                old(self).data@[PAGE_HEADER_LIVE_OFF as int],
                old(self).data@[PAGE_HEADER_LIVE_OFF + 1],
            ),
            spec_dead_len(final(self).len) == le_u16(
                old(self).data@[PAGE_HEADER_DEAD_OFF as int],
                old(self).data@[PAGE_HEADER_DEAD_OFF + 1],
            ),
            final(self).node_type == old(self).data@[PAGE_HEADER_TYPE_OFF as int],
            final(self).block_id == old(self).block_id,
            final(self).latch == old(self).latch,
            final(self).pin_count == old(self).pin_count,
            final(self).is_dirty == old(self).is_dirty,
            final(self).last_epoch == old(self).last_epoch,
    {
        let live: u32 = self.data[PAGE_HEADER_LIVE_OFF] as u32 + 256 * (self.data[PAGE_HEADER_LIVE_OFF + 1] as u32);
        let dead: u32 = self.data[PAGE_HEADER_DEAD_OFF] as u32 + 256 * (self.data[PAGE_HEADER_DEAD_OFF + 1] as u32);
        let packed = from_active_dead(live, dead);
        proof {
            lemma_len_roundtrip(live, dead);
        }
        self.len = packed as u32;
        self.node_type = self.data[PAGE_HEADER_TYPE_OFF];
    }

    /// Writes the live/dead counters and the node type into the page header
    /// (before the page goes to disk).
    pub fn sync_header_for_flush(&mut self)
        requires
            old(self).wf(),
        ensures
            final(self).wf(),
            le_u16(final(self).data@[PAGE_HEADER_LIVE_OFF as int], final(self).data@[PAGE_HEADER_LIVE_OFF + 1])
                == spec_active_len(old(self).len),
            le_u16(final(self).data@[PAGE_HEADER_DEAD_OFF as int], final(self).data@[PAGE_HEADER_DEAD_OFF + 1])
                == spec_dead_len(old(self).len),
            final(self).data@[PAGE_HEADER_TYPE_OFF as int] == old(self).node_type,
            forall|i: int|
                0 <= i < PAGE_SIZE && i != PAGE_HEADER_TYPE_OFF && !(PAGE_HEADER_LIVE_OFF <= i < PAGE_HEADER_DEAD_OFF + 2)
                    ==> final(self).data@[i] == old(self).data@[i],
            final(self).data@ == synced_data(*old(self)),
            same_meta(*final(self), *old(self)),
    {
        let live = active_len(self.len);
        let dead = dead_len(self.len);
        self.data.set(PAGE_HEADER_LIVE_OFF, (live % 256) as u8);
        self.data.set(PAGE_HEADER_LIVE_OFF + 1, (live / 256) as u8);
        self.data.set(PAGE_HEADER_DEAD_OFF, (dead % 256) as u8);
        self.data.set(PAGE_HEADER_DEAD_OFF + 1, (dead / 256) as u8);
        let t = self.node_type;
        self.data.set(PAGE_HEADER_TYPE_OFF, t);
    }
}

fn epoch_zero() -> (r: u64)
    ensures
        r == 0,
{
    0
}

/// Smallest value of a sequence of epochs, `u64::MAX` for none.
pub open spec fn seq_min(s: Seq<u64>) -> u64
    decreases s.len(),
{
    if s.len() == 0 {
        u64::MAX
    } else {
        let m = seq_min(s.drop_last());
        if s.last() < m { s.last() } else { m }
    }
}

/// A frame stamped at `e` may be evicted: no reader is active, or it was
/// stamped before every active reader registered.
pub open spec fn epoch_safe(slots: Seq<u64>, e: u64) -> bool {
    seq_min(slots) == u64::MAX || e < seq_min(slots)
}

pub proof fn lemma_seq_min(s: Seq<u64>)
    ensures
        forall|i: int| 0 <= i < s.len() ==> seq_min(s) <= s[i],
        seq_min(s) == u64::MAX || exists|i: int| 0 <= i < s.len() && s[i] == seq_min(s),
    decreases s.len(),
{
    if s.len() > 0 {
        lemma_seq_min(s.drop_last());
        assert forall|i: int| 0 <= i < s.len() implies seq_min(s) <= s[i] by {
            if i < s.len() - 1 {
                assert(s.drop_last()[i] == s[i]);
            }
        }
        if seq_min(s) != u64::MAX && seq_min(s) != s.last() {
            let j = choose|j: int| 0 <= j < s.drop_last().len() && s.drop_last()[j] == seq_min(s.drop_last());
            assert(s[j] == seq_min(s));
        }
    }
}

/// A reader registered at epoch `entered` keeps every frame stamped at or
/// after that epoch from eviction, whatever the other readers do.
pub proof fn law_active_reader_blocks_eviction(slots: Seq<u64>, tid: int, entered: u64, frame_epoch: u64)
    requires
        0 <= tid < slots.len(),
        entered <= frame_epoch,
        entered < EPOCH_SENTINEL,
    ensures
        !epoch_safe(slots.update(tid, entered), frame_epoch),
{
    lemma_seq_min(slots.update(tid, entered));
    assert(slots.update(tid, entered)[tid] == entered);
}

/// With no reader registered, every frame may be evicted.
pub proof fn law_no_reader_allows_eviction(slots: Seq<u64>, frame_epoch: u64)
    requires
        forall|i: int| 0 <= i < slots.len() ==> slots[i] == EPOCH_SENTINEL,
    ensures
        epoch_safe(slots, frame_epoch),
{
    lemma_seq_min(slots);
    if seq_min(slots) != u64::MAX {
        let i = choose|i: int| 0 <= i < slots.len() && slots[i] == seq_min(slots);
        assert(slots[i] == EPOCH_SENTINEL);
    }
}

/// The registered read epochs of reader threads (`EPOCH_SENTINEL` for a thread
/// outside a read section) and the global epoch. A frame may be evicted only
/// when it was last touched before every active reader registered.
pub struct EpochTable {
    pub slots: Vec<u64>,
    pub global_epoch: u64,
}

impl EpochTable {
    pub open spec fn wf(self) -> bool {
        self.slots@.len() == MAX_THREADS
    }

    /// Every thread outside a read section, global epoch 0.
    pub fn new() -> (r: Self)
        ensures
            r.wf(),
            r.global_epoch == 0,
            forall|i: int| 0 <= i < MAX_THREADS ==> r.slots@[i] == EPOCH_SENTINEL,
    {
        let mut slots: Vec<u64> = Vec::new();
        let mut i: usize = 0;
        while i < MAX_THREADS
            invariant
                i <= MAX_THREADS,
                slots@.len() == i,
                forall|j: int| 0 <= j < i ==> slots@[j] == EPOCH_SENTINEL,
            decreases MAX_THREADS - i,
        {
            slots.push(EPOCH_SENTINEL);
            i = i + 1;
        }
        EpochTable { slots, global_epoch: 0 }
    }

    /// The global epoch.
    pub fn current(&self) -> (r: u64)
        ensures
            r == self.global_epoch,
    {
        self.global_epoch
    }

    /// Moves the global epoch on by one and returns the new epoch.
    pub fn advance(&mut self) -> (r: u64)
        requires
            old(self).global_epoch < u64::MAX,
        ensures
            r == old(self).global_epoch + 1,
            final(self).global_epoch == r,
            final(self).slots == old(self).slots,
    {
        self.global_epoch = self.global_epoch + 1;
        self.global_epoch
    }

    /// Registers `thread_id` as a reader from the current epoch on.
    pub fn enter(&mut self, thread_id: usize) -> (r: u64)
        requires
            old(self).wf(),
            thread_id < MAX_THREADS,
        ensures
            final(self).wf(),
            r == old(self).global_epoch,
            final(self).global_epoch == old(self).global_epoch,
            final(self).slots@ == old(self).slots@.update(thread_id as int, r),
    {
        let epoch = self.current();
        self.slots.set(thread_id, epoch);
        epoch
    }

    /// Deregisters `thread_id`.
    pub fn exit(&mut self, thread_id: usize)
        requires
            old(self).wf(),
            thread_id < MAX_THREADS,
        ensures
            final(self).wf(),
            final(self).global_epoch == old(self).global_epoch,
            final(self).slots@ == old(self).slots@.update(thread_id as int, EPOCH_SENTINEL),
    {
        self.slots.set(thread_id, EPOCH_SENTINEL);
    }

    /// The oldest epoch of an active reader, `u64::MAX` when there is none.
    pub fn min_active_epoch(&self) -> (r: u64)
        ensures
            r == seq_min(self.slots@),
    {
        let mut min = u64::MAX;
        let mut i: usize = 0;
        while i < self.slots.len()
            invariant
                i <= self.slots@.len(),
                min == seq_min(self.slots@.take(i as int)),
            decreases self.slots@.len() - i,
        {
            let e = self.slots[i];
            proof {
                assert(self.slots@.take(i + 1).drop_last() =~= self.slots@.take(i as int));
            }
            if e != EPOCH_SENTINEL && e < min {
                min = e;
            }
            i = i + 1;
        }
        proof {
            assert(self.slots@.take(self.slots@.len() as int) =~= self.slots@);
        }
        min
    }

    /// Whether a frame last touched at `frame_epoch` may be evicted: always
    /// when no reader is active, else it must predate every active reader.
    pub fn safe_to_evict(&self, frame_epoch: u64) -> (r: bool)
        ensures
            r == epoch_safe(self.slots@, frame_epoch),
    {
        let m = self.min_active_epoch();
        m == u64::MAX || frame_epoch < m
    }
}

} // verus!

verus! {

/// The CLOCK (second chance) victim picker over `n` frames.
pub struct ClockReplacer {
    pub hand: usize,
    pub ref_bit: Vec<bool>,
    pub evictable: Vec<bool>,
    pub n: usize,
}

impl ClockReplacer {
    pub open spec fn wf(self) -> bool {
        &&& self.ref_bit@.len() == self.n
        &&& self.evictable@.len() == self.n
        &&& self.n <= u32::MAX as usize + 1
        &&& 2 * self.n <= usize::MAX
        &&& (self.n == 0 || self.hand < self.n)
    }

    /// `n` frames, none referenced, none evictable.
    pub fn new(n: usize) -> (r: Self)
        requires
            n <= u32::MAX as usize + 1,
            2 * n <= usize::MAX,
        ensures
            r.wf(),
            r.n == n,
            r.hand == 0,
            forall|i: int| 0 <= i < n ==> !r.ref_bit@[i] && !r.evictable@[i],
    {
        let mut ref_bit: Vec<bool> = Vec::new();
        let mut evictable: Vec<bool> = Vec::new();
        let mut i: usize = 0;
        while i < n
            invariant
                i <= n,
                ref_bit@.len() == i,
                evictable@.len() == i,
                forall|j: int| 0 <= j < i ==> !ref_bit@[j] && !evictable@[j],
            decreases n - i,
        {
            ref_bit.push(false);
            evictable.push(false);
            i = i + 1;
        }
        ClockReplacer { hand: 0, ref_bit, evictable, n }
    }

    /// Marks frame `fid` as recently used.
    pub fn record_access(&mut self, fid: FrameId)
        requires
            old(self).wf(),
            fid < old(self).n,
        ensures
            final(self).wf(),
            final(self).ref_bit@ == old(self).ref_bit@.update(fid as int, true),
            final(self).evictable == old(self).evictable,
            final(self).hand == old(self).hand,
            final(self).n == old(self).n,
    {
        self.ref_bit.set(fid as usize, true);
    }

    /// Allows or forbids evicting frame `fid`.
    pub fn set_evictable(&mut self, fid: FrameId, evictable: bool)
        requires
            old(self).wf(),
            fid < old(self).n,
        ensures
            final(self).wf(),
            final(self).evictable@ == old(self).evictable@.update(fid as int, evictable),
            final(self).ref_bit == old(self).ref_bit,
            final(self).hand == old(self).hand,
            final(self).n == old(self).n,
    {
        self.evictable.set(fid as usize, evictable);
    }

    /// Steps the sweep takes from the hand to frame `i` and, for an evictable
    /// frame, until it offers `i`: a referenced frame is passed once (losing
    /// its bit) before it is offered on the next round.
    pub open spec fn need(self, i: int) -> int {
        dist(self.hand as int, i, self.n as int) + if self.ref_bit@[i] { self.n as int } else { 0 }
    }

    /// Sweeps the clock hand at most twice around the frames: a referenced
    /// evictable frame loses its reference bit (second chance), the first
    /// unreferenced evictable frame is the victim and the hand stops just past
    /// it. There is a victim exactly when some frame is evictable: the one the
    /// sweep reaches first, counting referenced frames a round later.
    pub fn evict_candidate(&mut self) -> (r: Option<FrameId>)
        requires
            old(self).wf(),
        ensures
            final(self).wf(),
            final(self).n == old(self).n,
            final(self).evictable == old(self).evictable,
            match r {
                Some(f) => {
                    &&& f < old(self).n
                    &&& old(self).evictable@[f as int]
                    &&& forall|i: int|
                        0 <= i < old(self).n && old(self).evictable@[i] && i != f ==> old(self).need(i) > old(
                            self,
                        ).need(f as int)
                    &&& final(self).hand == (f + 1) % (old(self).n as int)
                    &&& forall|i: int|
                        0 <= i < old(self).n ==> final(self).ref_bit@[i] == (old(self).ref_bit@[i] && !(old(
                            self,
                        ).evictable@[i] && dist(old(self).hand as int, i, old(self).n as int) < old(self).need(
                            f as int,
                        )))
                },
                None => {
                    &&& forall|i: int| 0 <= i < old(self).n ==> !old(self).evictable@[i]
                    &&& final(self).ref_bit@ == old(self).ref_bit@
                },
            },
    {
        let n = self.n;
        let ghost start = self.hand as int;
        let ghost r0 = self.ref_bit@;
        let ghost e0 = self.evictable@;
        let ghost s0 = *self;
        let mut step: usize = 0;
        proof {
            if n > 0 {
                vstd::arithmetic::div_mod::lemma_small_mod(start as nat, n as nat);
            }
        }
        while step < 2 * n
            invariant
                self.wf(),
                n == 0 || start < n,
                self.n == n,
                n == old(self).n,
                s0 == *old(self),
                start == old(self).hand,
                r0 == old(self).ref_bit@,
                e0 == old(self).evictable@,
                self.evictable == old(self).evictable,
                step <= 2 * n,
                n > 0 ==> self.hand == (start + step) % (n as int),
                forall|i: int|
                    0 <= i < n ==> self.ref_bit@[i] == (r0[i] && !(e0[i] && dist(start, i, n as int) < step)),
                forall|i: int| 0 <= i < n && e0[i] ==> s0.need(i) >= step,
            decreases 2 * n - step,
        {
            let f = self.hand % n;
            proof {
                vstd::arithmetic::div_mod::lemma_small_mod(self.hand as nat, n as nat);
                vstd::arithmetic::div_mod::lemma_add_mod_noop(start + step, 1, n as int);
                vstd::arithmetic::div_mod::lemma_add_mod_noop_right((start + step) % (n as int), 1, n as int);
                lemma_dist_of_step(start, step as int, n as int);
                assert(f == (start + step) % (n as int));
                assert forall|i: int| 0 <= i < n && i != f implies dist(start, i, n as int) != step as int % (n as int) by {
                    if dist(start, i, n as int) == dist(start, f as int, n as int) {
                        lemma_dist_injective(start, i, f as int, n as int);
                    }
                }
                assert forall|i: int| 0 <= i < n implies 0 <= #[trigger] dist(start, i, n as int) < n by {
                    lemma_mod_range(i - start, n as int);
                }
            }
            self.hand = (self.hand + 1) % n;
            if !self.evictable[f] {
                step = step + 1;
                proof {
                    assert forall|i: int| 0 <= i < n implies self.ref_bit@[i] == (r0[i] && !(e0[i] && dist(
                        start,
                        i,
                        n as int,
                    ) < step)) by {
                        if e0[i] && dist(start, i, n as int) == step - 1 {
                            vstd::arithmetic::div_mod::lemma_small_mod((step - 1) as nat, n as nat);
                            assert(i != f);
                        }
                    }
                    assert forall|i: int| 0 <= i < n && e0[i] implies s0.need(i) >= step by {
                        assert(i != f);
                        if s0.need(i) == step - 1 {
                            lemma_need_mod(dist(start, i, n as int), r0[i], n as int, (step - 1) as int);
                        }
                    }
                }
                continue;
            }
            if self.ref_bit[f] {
                self.ref_bit.set(f, false);
                proof {
                    if step < n {
                        vstd::arithmetic::div_mod::lemma_small_mod(step as nat, n as nat);
                    } else {
                        lemma_mod_range(step as int, n as int);
                    }
                    assert(dist(start, f as int, n as int) == step);
                }
                step = step + 1;
                proof {
                    assert forall|i: int| 0 <= i < n implies self.ref_bit@[i] == (r0[i] && !(e0[i] && dist(
                        start,
                        i,
                        n as int,
                    ) < step)) by {
                        if i != f {
                            assert(dist(start, i, n as int) != (step - 1) as int);
                        }
                    }
                    assert forall|i: int| 0 <= i < n && e0[i] implies s0.need(i) >= step by {
                        if i != f {
                            assert(dist(start, i, n as int) != (step - 1) as int % (n as int));
                            if s0.need(i) == step - 1 {
                                lemma_need_mod(dist(start, i, n as int), r0[i], n as int, (step - 1) as int);
                            }
                        }
                    }
                }
            } else {
                proof {
                    let d = dist(start, f as int, n as int);
                    assert(d == step as int % (n as int));
                    if step < n {
                        vstd::arithmetic::div_mod::lemma_small_mod(step as nat, n as nat);
                    } else {
                        vstd::arithmetic::div_mod::lemma_small_mod((step - n) as nat, n as nat);
                        vstd::arithmetic::div_mod::lemma_mod_multiples_vanish(1, (step - n) as int, n as int);
                    }
                    assert(s0.need(f as int) == step);
                    assert forall|i: int| 0 <= i < n && e0[i] && i != f implies s0.need(i) > s0.need(f as int) by {
                        assert(dist(start, i, n as int) != step as int % (n as int));
                        if s0.need(i) == step {
                            lemma_need_mod(dist(start, i, n as int), r0[i], n as int, step as int);
                        }
                    }
                }
                return Some(f as FrameId);
            }
        }
        proof {
            assert forall|i: int| 0 <= i < n implies !old(self).evictable@[i] by {
                if e0[i] {
                    lemma_mod_range(i - start, n as int);
                }
            }
            assert(self.ref_bit@ =~= old(self).ref_bit@);
        }
        None
    }
}

/// Steps from the hand at `h` to frame `i`, around `n` frames.
pub open spec fn dist(h: int, i: int, n: int) -> int {
    (i - h) % n
}

/// The frame the hand reaches after `s` steps from `start` is `s` steps
/// (modulo a round) away from it.
proof fn lemma_dist_of_step(start: int, s: int, n: int)
    requires
        n > 0,
        0 <= start < n,
        0 <= s,
    ensures
        dist(start, (start + s) % n, n) == s % n,
{
    vstd::arithmetic::div_mod::lemma_fundamental_div_mod(start + s, n);
    let q = (start + s) / n;
    assert((start + s) % n - start == n * (-q) + s) by (nonlinear_arith)
        requires
            start + s == n * q + (start + s) % n;
    vstd::arithmetic::div_mod::lemma_mod_multiples_vanish(-q, s, n);
}

/// After the sweep picked `g`, an evictable frame `f` it did not pick is
/// that many steps (plus one) closer to being offered.
proof fn lemma_need_after_pick(before: ClockReplacer, after: ClockReplacer, g: int, f: int)
    requires
        before.wf(),
        after.wf(),
        before.n > 0,
        after.n == before.n,
        0 <= g < before.n,
        0 <= f < before.n,
        f != g,
        before.evictable@[g],
        before.evictable@[f],
        before.need(f) > before.need(g),
        after.hand == (g + 1) % (before.n as int),
        after.ref_bit@[f] == (before.ref_bit@[f] && !(before.evictable@[f] && dist(
            before.hand as int,
            f,
            before.n as int,
        ) < before.need(g))),
    ensures
        after.need(f) == before.need(f) - before.need(g) - 1,
{
    let n = before.n as int;
    let h = before.hand as int;
    let s = before.need(g);
    let a = dist(h, f, n);
    let dg = dist(h, g, n);
    lemma_mod_range(f - h, n);
    lemma_mod_range(g - h, n);
    lemma_need_mod(dg, before.ref_bit@[g], n, s);
    // g sits `s` steps (modulo a round) past the hand
    vstd::arithmetic::div_mod::lemma_fundamental_div_mod(g - h, n);
    vstd::arithmetic::div_mod::lemma_fundamental_div_mod(f - h, n);
    vstd::arithmetic::div_mod::lemma_fundamental_div_mod(g + 1, n);
    let q1 = (f - h) / n;
    let q2 = (g - h) / n;
    let k = (g + 1) / n;
    let rg: int = if before.ref_bit@[g] { 1 } else { 0 };
    let h2 = after.hand as int;
    assert(f - h2 == n * (q1 - q2 + k + rg) + (a - s - 1)) by (nonlinear_arith)
        requires
            f - h == n * q1 + a,
            g - h == n * q2 + dg,
            g + 1 == n * k + h2,
            s == dg + n * rg;
    vstd::arithmetic::div_mod::lemma_mod_multiples_vanish(q1 - q2 + k + rg, a - s - 1, n);
    assert(dist(h2, f, n) == (a - s - 1) % n);
    if a == s {
        vstd::arithmetic::div_mod::lemma_small_mod(s as nat, n as nat);
        lemma_dist_injective(h, f, g, n);
    }
    if a - s - 1 < 0 {
        // passed in this sweep: the frame had its bit set and lost it
        assert(a < s);
        assert(before.ref_bit@[f]);
        assert(!after.ref_bit@[f]);
        assert(a - s - 1 + n >= 0);
        vstd::arithmetic::div_mod::lemma_small_mod((a - s - 1 + n) as nat, n as nat);
        vstd::arithmetic::div_mod::lemma_mod_multiples_vanish(-1, a - s - 1 + n, n);
        assert(n * -1 + (a - s - 1 + n) == a - s - 1);
        assert(dist(h2, f, n) == a - s - 1 + n);
    } else {
        vstd::arithmetic::div_mod::lemma_small_mod((a - s - 1) as nat, n as nat);
        assert(a > s);
        assert(after.ref_bit@[f] == before.ref_bit@[f]);
        assert(dist(h2, f, n) == a - s - 1);
    }
}

/// A step count that is a distance, perhaps plus a round, is that distance
/// modulo a round.
proof fn lemma_need_mod(d: int, b: bool, n: int, s: int)
    requires
        n > 0,
        0 <= d < n,
        s == d + if b { n } else { 0 },
    ensures
        s % n == d,
{
    vstd::arithmetic::div_mod::lemma_small_mod(d as nat, n as nat);
    if b {
        vstd::arithmetic::div_mod::lemma_mod_multiples_vanish(1, d, n);
    }
}

/// Distinct frames are at distinct distances from the hand.
proof fn lemma_dist_injective(start: int, i: int, j: int, n: int)
    requires
        n > 0,
        0 <= i < n,
        0 <= j < n,
        dist(start, i, n) == dist(start, j, n),
    ensures
        i == j,
{
    vstd::arithmetic::div_mod::lemma_fundamental_div_mod(i - start, n);
    vstd::arithmetic::div_mod::lemma_fundamental_div_mod(j - start, n);
    let q1 = (i - start) / n;
    let q2 = (j - start) / n;
    assert(i - j == n * (q1 - q2)) by (nonlinear_arith)
        requires
            i - start == n * q1 + (i - start) % n,
            j - start == n * q2 + (j - start) % n,
            (i - start) % n == (j - start) % n;
    lemma_small_multiple(i - j, n, q1 - q2);
}

proof fn lemma_mod_range(x: int, n: int)
    requires
        n > 0,
    ensures
        0 <= x % n < n,
{
}

/// A multiple of `n` strictly between `-n` and `n` is zero.
proof fn lemma_small_multiple(x: int, n: int, k: int)
    requires
        n > 0,
        x == n * k,
        -n < x < n,
    ensures
        x == 0,
{
    if k > 0 {
        assert(n * k >= n) by (nonlinear_arith) requires n > 0, k > 0;
    } else if k < 0 {
        assert(n * k <= -n) by (nonlinear_arith) requires n > 0, k < 0;
    }
}

} // verus!


verus! {

#[verifier::external_type_specification]
#[verifier::external_body]
#[verifier::reject_recursive_types(K)]
#[verifier::reject_recursive_types(V)]
#[verifier::reject_recursive_types(S)]
pub struct ExDashMap<K, V, S>(DashMap<K, V, S>);

/// The entries of a page table: which frame holds which block.
pub uninterp spec fn page_table_contents(m: DashMap<u64, u32>) -> Map<u64, u32>;

/// `dashmap::DashMap::new`: an empty map.
#[verifier::external_body]
fn page_table_new() -> (r: DashMap<u64, u32>)
    ensures
        page_table_contents(r).dom() == Set::<u64>::empty(),
{
    DashMap::new()
}

/// `dashmap::DashMap::get`: the value under `key`, if any.
#[verifier::external_body]
fn page_table_get(m: &DashMap<u64, u32>, key: u64) -> (r: Option<u32>)
    ensures
        r == if page_table_contents(*m).dom().contains(key) {
            Some(page_table_contents(*m)[key])
        } else {
            None::<u32>
        },
{
    m.get(&key).map(|v| *v)
}

/// `dashmap::DashMap::insert`: `key` now maps to `value`.
#[verifier::external_body]
fn page_table_insert(m: &mut DashMap<u64, u32>, key: u64, value: u32)
    ensures
        page_table_contents(*final(m)) == page_table_contents(*old(m)).insert(key, value),
{
    m.insert(key, value);
}

/// `dashmap::DashMap::remove`: `key` no longer maps to anything.
#[verifier::external_body]
fn page_table_remove(m: &mut DashMap<u64, u32>, key: u64)
    ensures
        page_table_contents(*final(m)) == page_table_contents(*old(m)).remove(key),
{
    m.remove(&key);
}

/// `f` may be taken by `alloc_frame` with nothing to write back: the head
/// of the free list, or, with no free frame, an evictable, unpinned frame
/// that predates every active reader and holds no dirty page.
pub open spec fn ready_choice(p: BufferPool, f: u32) -> bool {
    if p.free_list@.len() > 0 {
        f == p.free_list@[0]
    } else {
        &&& f < p.frames@.len()
        &&& p.replacer.evictable@[f as int]
        &&& p.frames@[f as int].pin_count == 0
        &&& epoch_safe(p.epochs.slots@, p.frames@[f as int].last_epoch)
        &&& (p.frames@[f as int].block_id == EMPTY_PAGE || !p.frames@[f as int].is_dirty)
    }
}

/// Frame `f` of `p` may be taken from its page: evictable, unpinned and
/// stamped before every active reader registered.
pub open spec fn victim_ok(p: BufferPool, f: int) -> bool {
    &&& p.replacer.evictable@[f]
    &&& p.frames@[f].pin_count == 0
    &&& epoch_safe(p.epochs.slots@, p.frames@[f].last_epoch)
}

/// `f` is a victim of `alloc_frame` whose dirty page of block `b` has to be
/// written back before the frame can be reused.
pub open spec fn write_back_choice(p: BufferPool, f: u32, b: u64) -> bool {
    &&& p.free_list@.len() == 0
    &&& f < p.frames@.len()
    &&& b != EMPTY_PAGE
    &&& p.frames@[f as int].block_id == b
    &&& p.frames@[f as int].is_dirty
    &&& p.frames@[f as int].pin_count == 0
    &&& p.replacer.evictable@[f as int]
    &&& epoch_safe(p.epochs.slots@, p.frames@[f as int].last_epoch)
}

/// `a` has the frames of `b`, but perhaps frame `f`.
pub open spec fn others_kept(a: BufferPool, b: BufferPool, f: int) -> bool {
    &&& a.frames@.len() == b.frames@.len()
    &&& forall|g: int| 0 <= g < b.frames@.len() && g != f ==> a.frames@[g] == b.frames@[g]
}

/// The free list after `alloc_frame`: its head is taken, if it has one.
pub open spec fn free_list_after(old_pool: BufferPool, new_pool: BufferPool) -> bool {
    if old_pool.free_list@.len() > 0 {
        new_pool.free_list@ == old_pool.free_list@.drop_first()
    } else {
        new_pool.free_list@ == old_pool.free_list@
    }
}

/// How `alloc_frame` leaves the pool, given what it returned.
pub open spec fn alloc_outcome(old_pool: BufferPool, new_pool: BufferPool, r: AllocStep) -> bool {
    &&& (r is Unavailable) <==> (old_pool.free_list@.len() == 0 && forall|f: int|
        0 <= f < old_pool.frames@.len() ==> !victim_ok(old_pool, f))
    &&& new_pool.epochs == old_pool.epochs
    &&& free_list_after(old_pool, new_pool)
    &&& old_pool.free_list@.len() > 0 ==> {
        &&& r == AllocStep::Ready(old_pool.free_list@[0])
        &&& new_pool.frames == old_pool.frames
        &&& new_pool.table() == old_pool.table()
        &&& new_pool.replacer == old_pool.replacer
    }
    &&& match r {
        AllocStep::Ready(f) => {
            &&& ready_choice(old_pool, f)
            &&& f < old_pool.frames@.len()
            &&& others_kept(new_pool, old_pool, f as int)
            &&& new_pool.frames@[f as int].block_id == EMPTY_PAGE
            &&& new_pool.frames@[f as int].pin_count == 0
            &&& !new_pool.free_list@.contains(f)
            &&& !new_pool.replacer.evictable@[f as int]
            &&& new_pool.table() == old_pool.table().remove(old_pool.frames@[f as int].block_id)
            &&& old_pool.free_list@.len() == 0 ==> {
                &&& new_pool.frames@[f as int].latch.version == 0
                &&& !new_pool.frames@[f as int].is_dirty
                &&& new_pool.frames@[f as int].last_epoch == 0
                &&& new_pool.frames@[f as int].len == old_pool.frames@[f as int].len
                &&& new_pool.frames@[f as int].node_type == old_pool.frames@[f as int].node_type
                &&& new_pool.frames@[f as int].data == old_pool.frames@[f as int].data
            }
        },
        AllocStep::WriteBack(f, b) => {
            &&& write_back_choice(old_pool, f, b)
            &&& others_kept(new_pool, old_pool, f as int)
            &&& same_meta(new_pool.frames@[f as int], old_pool.frames@[f as int])
            &&& new_pool.frames@[f as int].data@ == synced_data(old_pool.frames@[f as int])
            &&& new_pool.table() == old_pool.table()
        },
        AllocStep::Unavailable => {
            &&& old_pool.free_list@.len() == 0
            &&& forall|f: int| 0 <= f < old_pool.frames@.len() ==> !victim_ok(old_pool, f)
            &&& new_pool.frames == old_pool.frames
            &&& new_pool.table() == old_pool.table()
        },
    }
}

/// The bytes of a page made afresh: the block id (little endian), the node
/// type byte, then zeros.
pub open spec fn fresh_page(block_id: u64, node_type: u8) -> Seq<u8> {
    spec_le_bytes(block_id) + seq![node_type] + Seq::new((PAGE_SIZE - 9) as nat, |i: int| 0u8)
}

fn fresh_page_bytes(block_id: u64, node_type: u8) -> (r: Vec<u8>)
    ensures
        r@ == fresh_page(block_id, node_type),
        r@.len() == PAGE_SIZE,
{
    let mut data: Vec<u8> = Vec::new();
    push_le_bytes(&mut data, block_id);
    data.push(node_type);
    let mut i: usize = 9;
    while i < PAGE_SIZE
        invariant
            9 <= i <= PAGE_SIZE,
            data@ == spec_le_bytes(block_id) + seq![node_type] + Seq::new((i - 9) as nat, |j: int| 0u8),
        decreases PAGE_SIZE - i,
    {
        data.push(0);
        proof {
            assert(data@ =~= spec_le_bytes(block_id) + seq![node_type] + Seq::new((i + 1 - 9) as nat, |j: int| 0u8));
        }
        i = i + 1;
    }
    data
}

/// Frame `f` pinned once more and stamped with epoch `e`, which is now the
/// global epoch; it is referenced and not evictable.
pub open spec fn pinned(old_pool: BufferPool, new_pool: BufferPool, f: u32, e: u64) -> bool {
    &&& f < old_pool.frames@.len()
    &&& others_kept(new_pool, old_pool, f as int)
    &&& new_pool.frames@[f as int] == (Frame {
        pin_count: old_pool.frames@[f as int].pin_count.wrapping_add(1),
        last_epoch: e,
        ..old_pool.frames@[f as int]
    })
    &&& new_pool.table() == old_pool.table()
    &&& new_pool.free_list == old_pool.free_list
    &&& new_pool.replacer.evictable@ == old_pool.replacer.evictable@.update(f as int, false)
    &&& new_pool.replacer.ref_bit@ == old_pool.replacer.ref_bit@.update(f as int, true)
    &&& new_pool.replacer.hand == old_pool.replacer.hand
    &&& new_pool.replacer.n == old_pool.replacer.n
    &&& new_pool.epochs.global_epoch == e
    &&& new_pool.epochs.slots == old_pool.epochs.slots
}

/// The allocation a fetch that missed stands for.
pub open spec fn fetch_as_alloc(r: FetchStep) -> AllocStep {
    match r {
        FetchStep::Read(f) => AllocStep::Ready(f),
        FetchStep::WriteBack(f, b) => AllocStep::WriteBack(f, b),
        _ => AllocStep::Unavailable,
    }
}

/// The allocation a new page that is not cached stands for.
pub open spec fn new_page_as_alloc(r: NewPageStep) -> AllocStep {
    match r {
        NewPageStep::Done(f) => AllocStep::Ready(f),
        NewPageStep::WriteBack(f, b) => AllocStep::WriteBack(f, b),
        NewPageStep::Unavailable => AllocStep::Unavailable,
    }
}

/// What `BufferPool::alloc_frame` decided.
pub enum AllocStep {
    /// Frame ready for a new page: it holds no page and is unpinned.
    Ready(FrameId),
    /// Frame chosen as victim; it still holds the dirty page of the block,
    /// whose bytes (header synced) must be written to disk before
    /// `evict_frame` frees the frame.
    WriteBack(FrameId, BlockID),
    /// Every frame is pinned or covered by an active reader epoch.
    Unavailable,
}

/// What `BufferPool::fetch_page` decided.
pub enum FetchStep {
    /// The page is cached in the frame, now pinned.
    Hit(FrameId),
    /// The frame is free for the page: read the page from disk and hand it
    /// to `install_page`.
    Read(FrameId),
    /// As `AllocStep::WriteBack`; then read the page and `install_page`.
    WriteBack(FrameId, BlockID),
    /// No frame can be had (or the epoch counter is exhausted).
    Unavailable,
}

/// What `BufferPool::alloc_new_page` decided.
pub enum NewPageStep {
    /// The page is set up, zeroed, in the frame, which is pinned and dirty.
    Done(FrameId),
    /// As `AllocStep::WriteBack`; then `evict_frame` and `init_new_page`.
    WriteBack(FrameId, BlockID),
    /// No frame can be had (or the epoch counter is exhausted).
    Unavailable,
}

/// A fixed number of page frames caching disk blocks, with a page table from
/// block to frame, a list of free frames, a CLOCK replacer and an epoch
/// table that keeps frames read by active readers from eviction. The disk is
/// the caller's: the steps that need it say so and are finished by another
/// call.
pub struct BufferPool {
    pub frames: Vec<Frame>,
    pub page_table: DashMap<BlockID, FrameId>,
    pub free_list: VecDeque<FrameId>,
    pub replacer: ClockReplacer,
    pub epochs: EpochTable,
}

impl BufferPool {
    pub open spec fn table(self) -> Map<u64, u32> {
        page_table_contents(self.page_table)
    }

    /// The bookkeeping the pool keeps: the page table maps each cached block
    /// to the frame holding it; free frames hold no page, are not evictable
    /// and occur once in the free list.
    pub open spec fn wf(self) -> bool {
        &&& self.frames@.len() == self.replacer.n
        &&& self.replacer.wf()
        &&& self.epochs.wf()
        &&& forall|f: int| 0 <= f < self.frames@.len() ==> (#[trigger] self.frames@[f]).wf()
        &&& forall|b: u64|
            #[trigger] self.table().dom().contains(b) ==> {
                &&& self.table()[b] < self.frames@.len()
                &&& self.frames@[self.table()[b] as int].block_id == b
                &&& b != EMPTY_PAGE
            }
        &&& forall|f: int|
            0 <= f < self.frames@.len() && (#[trigger] self.frames@[f]).block_id != EMPTY_PAGE ==> {
                &&& self.table().dom().contains(self.frames@[f].block_id)
                &&& self.table()[self.frames@[f].block_id] == f
            }
        &&& forall|i: int|
            0 <= i < self.free_list@.len() ==> {
                &&& (#[trigger] self.free_list@[i]) < self.frames@.len()
                &&& self.frames@[self.free_list@[i] as int].block_id == EMPTY_PAGE
                &&& self.frames@[self.free_list@[i] as int].pin_count == 0
                &&& !self.replacer.evictable@[self.free_list@[i] as int]
            }
        &&& self.free_list@.no_duplicates()
    }

    /// A pool of `num_frames` empty frames, all free.
    pub fn new(num_frames: usize) -> (r: Self)
        requires
            num_frames <= u32::MAX as usize + 1,
            2 * num_frames <= usize::MAX,
        ensures
            r.wf(),
            r.frames@.len() == num_frames,
            r.table().dom() == Set::<u64>::empty(),
            r.free_list@ == Seq::new(num_frames as nat, |i: int| i as u32),
            r.epochs.global_epoch == 0,
            forall|i: int| 0 <= i < MAX_THREADS ==> r.epochs.slots@[i] == EPOCH_SENTINEL,
            r.replacer.hand == 0,
            forall|i: int| 0 <= i < num_frames ==> !r.replacer.ref_bit@[i] && !r.replacer.evictable@[i],
            forall|f: int| 0 <= f < num_frames ==> (#[trigger] r.frames@[f]).block_id == EMPTY_PAGE
                && r.frames@[f].pin_count == 0,
    {
        let mut frames: Vec<Frame> = Vec::new();
        let mut free_list: VecDeque<FrameId> = VecDeque::new();
        let mut i: usize = 0;
        while i < num_frames
            invariant
                i <= num_frames,
                num_frames <= u32::MAX as usize + 1,
                frames@.len() == i,
                free_list@ == Seq::new(i as nat, |j: int| j as u32),
                forall|f: int| 0 <= f < i ==> (#[trigger] frames@[f]).wf() && frames@[f].block_id == EMPTY_PAGE
                    && frames@[f].pin_count == 0,
            decreases num_frames - i,
        {
            frames.push(Frame::new());
            free_list.push_back(i as u32);
            proof {
                assert(free_list@ =~= Seq::new((i + 1) as nat, |j: int| j as u32));
            }
            i = i + 1;
        }
        let replacer = ClockReplacer::new(num_frames);
        let pool = BufferPool { frames, page_table: page_table_new(), free_list, replacer, epochs: EpochTable::new() };
        proof {
            assert forall|a: int, b: int| 0 <= a < pool.free_list@.len() && 0 <= b < pool.free_list@.len() && a != b
                implies pool.free_list@[a] != pool.free_list@[b] by {}
            assert forall|j: int| 0 <= j < pool.free_list@.len() implies {
                &&& (#[trigger] pool.free_list@[j]) < pool.frames@.len()
                &&& pool.frames@[pool.free_list@[j] as int].block_id == EMPTY_PAGE
                &&& pool.frames@[pool.free_list@[j] as int].pin_count == 0
                &&& !pool.replacer.evictable@[pool.free_list@[j] as int]
            } by {
                assert(pool.free_list@[j] == j as u32);
            }
        }
        pool
    }

    /// Pins the cached frame `fid` for a writer: one more pin, stamped with
    /// `epoch`, not evictable, referenced.
    fn pin_cached(&mut self, fid: FrameId, epoch: u64)
        requires
            old(self).wf(),
            fid < old(self).frames@.len(),
            old(self).frames@[fid as int].block_id != EMPTY_PAGE,
        ensures
            final(self).wf(),
            final(self).page_table == old(self).page_table,
            final(self).free_list == old(self).free_list,
            final(self).epochs == old(self).epochs,
            final(self).frames@.len() == old(self).frames@.len(),
            forall|f: int| 0 <= f < old(self).frames@.len() && f != fid ==> final(self).frames@[f] == old(self).frames@[f],
            final(self).frames@[fid as int] == (Frame {
                pin_count: old(self).frames@[fid as int].pin_count.wrapping_add(1),
                last_epoch: epoch,
                ..old(self).frames@[fid as int]
            }),
            final(self).replacer.evictable@ == old(self).replacer.evictable@.update(fid as int, false),
            final(self).replacer.ref_bit@ == old(self).replacer.ref_bit@.update(fid as int, true),
            final(self).replacer.hand == old(self).replacer.hand,
            final(self).replacer.n == old(self).replacer.n,
    {
        let ghost old_self = *self;
        let pc = self.frames[fid as usize].pin_count;
        self.frames[fid as usize].pin_count = pc.wrapping_add(1);
        self.frames[fid as usize].last_epoch = epoch;
        self.replacer.set_evictable(fid, false);
        self.replacer.record_access(fid);
        proof {
            assert forall|b: u64| #[trigger] self.table().dom().contains(b) implies {
                &&& self.table()[b] < self.frames@.len()
                &&& self.frames@[self.table()[b] as int].block_id == b
                &&& b != EMPTY_PAGE
            } by {
                assert(old_self.table().dom().contains(b));
            }
            assert forall|i: int| 0 <= i < self.free_list@.len() implies {
                &&& (#[trigger] self.free_list@[i]) < self.frames@.len()
                &&& self.frames@[self.free_list@[i] as int].block_id == EMPTY_PAGE
                &&& self.frames@[self.free_list@[i] as int].pin_count == 0
                &&& !self.replacer.evictable@[self.free_list@[i] as int]
            } by {
                assert(old_self.frames@[old_self.free_list@[i] as int].block_id == EMPTY_PAGE);
                assert(self.free_list@[i] != fid) by {
                    if self.free_list@[i] == fid {
                        assert(old_self.frames@[fid as int].block_id == EMPTY_PAGE);
                    }
                }
            }
            assert forall|f: int| 0 <= f < self.frames@.len() && (#[trigger] self.frames@[f]).block_id != EMPTY_PAGE implies {
                &&& self.table().dom().contains(self.frames@[f].block_id)
                &&& self.table()[self.frames@[f].block_id] == f
            } by {
                assert(old_self.frames@[f].block_id == self.frames@[f].block_id);
            }
            assert forall|f: int| 0 <= f < self.frames@.len() implies (#[trigger] self.frames@[f]).wf() by {
                assert(old_self.frames@[f].wf());
            }
        }
    }

    /// A frame for a new page. The first free frame is taken when there is
    /// one; otherwise the CLOCK sweep offers victims, and the first that is
    /// unpinned and predates every active reader is taken, for at most twice
    /// as many offers as there are frames. A victim without a dirty page is
    /// evicted at once; a dirty one gets its header synced and is handed back
    /// for writing.
    pub fn alloc_frame(&mut self) -> (r: AllocStep)
        requires
            old(self).wf(),
        ensures
            final(self).wf(),
            alloc_outcome(*old(self), *final(self), r),
    {
        if self.free_list.len() > 0 {
            let ghost old_self = *self;
            let fid = self.free_list.pop_front().unwrap();
            proof {
                assert(self.free_list@ =~= old_self.free_list@.drop_first());
                assert forall|i: int| 0 <= i < self.free_list@.len() implies {
                    &&& (#[trigger] self.free_list@[i]) < self.frames@.len()
                    &&& self.frames@[self.free_list@[i] as int].block_id == EMPTY_PAGE
                    &&& self.frames@[self.free_list@[i] as int].pin_count == 0
                    &&& !self.replacer.evictable@[self.free_list@[i] as int]
                } by {
                    assert(self.free_list@[i] == old_self.free_list@[i + 1]);
                }
                assert(!self.free_list@.contains(fid)) by {
                    if self.free_list@.contains(fid) {
                        let j = choose|j: int| 0 <= j < self.free_list@.len() && self.free_list@[j] == fid;
                        assert(old_self.free_list@[j + 1] == old_self.free_list@[0]);
                    }
                }
                assert(old_self.frames@[fid as int].block_id == EMPTY_PAGE);
                assert(!old_self.table().dom().contains(EMPTY_PAGE));
                assert(self.table() =~= old_self.table().remove(EMPTY_PAGE));
            }
            return AllocStep::Ready(fid);
        }
        let n = self.frames.len();
        let ghost old_self = *self;
        let mut attempt: usize = 0;
        // steps the clock hand has moved so far
        let ghost mut progress: int = 0;
        proof {
            assert forall|f: int| 0 <= f < n && victim_ok(old_self, f) implies progress + self.replacer.need(f) <= 2 * n
                - 1 by {
                lemma_mod_range(f - self.replacer.hand, n as int);
            }
        }
        while attempt < 2 * n
            invariant
                self.wf(),
                n == self.frames@.len(),
                2 * n <= usize::MAX,
                old_self == *old(self),
                old_self.wf(),
                old_self.free_list@.len() == 0,
                self.free_list == old_self.free_list,
                self.frames == old_self.frames,
                self.page_table == old_self.page_table,
                self.epochs == old_self.epochs,
                self.replacer.evictable == old_self.replacer.evictable,
                self.replacer.n == old_self.replacer.n,
                attempt <= progress,
                forall|f: int| 0 <= f < n && victim_ok(old_self, f) ==> progress + self.replacer.need(f) <= 2 * n - 1,
            decreases 2 * n - attempt,
        {
            attempt = attempt + 1;
            let ghost r_before = self.replacer;
            let cand = self.replacer.evict_candidate();
            proof {
                assert(self.frames@ == old_self.frames@);
                assert(self.table() == old_self.table());
                assert(self.free_list@.len() == 0);
                assert(self.replacer.evictable@ == old_self.replacer.evictable@);
                assert(self.wf());
            }
            let c = match cand {
                Some(c) => c,
                None => {
                    proof {
                        assert forall|f: int| 0 <= f < n implies !victim_ok(old_self, f) by {}
                    }
                    return AllocStep::Unavailable;
                },
            };
            proof {
                lemma_mod_range(c - r_before.hand, n as int);
                let step = r_before.need(c as int);
                assert forall|f: int| 0 <= f < n && victim_ok(old_self, f) && f != c implies progress + step + 1
                    + self.replacer.need(f) <= 2 * n - 1 by {
                    lemma_need_after_pick(r_before, self.replacer, c as int, f);
                }
                progress = progress + step + 1;
            }
            let ci = c as usize;
            if self.frames[ci].pin_count > 0 {
                continue;
            }
            let fe = self.frames[ci].last_epoch;
            if !self.epochs.safe_to_evict(fe) {
                continue;
            }
            let old_bid = self.frames[ci].block_id;
            if old_bid != EMPTY_PAGE && self.frames[ci].is_dirty {
                let ghost before = *self;
                self.frames[ci].sync_header_for_flush();
                proof {
                    assert(!before.free_list@.contains(c));
                    Self::lemma_frame_update_keeps_wf(*self, before, c as int);
                    assert(victim_ok(old_self, c as int));
                }
                return AllocStep::WriteBack(c, old_bid);
            }
            let ghost before = *self;
            if old_bid != EMPTY_PAGE {
                page_table_remove(&mut self.page_table, old_bid);
            }
            self.frames[ci].block_id = EMPTY_PAGE;
            self.frames[ci].reset_metadata(EMPTY_PAGE, 0);
            self.replacer.set_evictable(c, false);
            proof {
                assert(!before.table().dom().contains(EMPTY_PAGE));
                assert(self.table() =~= before.table().remove(before.frames@[c as int].block_id));
                assert(!before.free_list@.contains(c));
                Self::lemma_evicted_keeps_wf(*self, before, c as int);
            }
            proof {
                assert(victim_ok(old_self, c as int));
            }
            return AllocStep::Ready(c);
        }
        proof {
            assert forall|f: int| 0 <= f < n implies !victim_ok(old_self, f) by {
                if victim_ok(old_self, f) {
                    lemma_mod_range(f - self.replacer.hand, n as int);
                }
            }
        }
        AllocStep::Unavailable
    }

    /// Finishes evicting a victim whose dirty page has been written back: its
    /// block leaves the page table and the frame is reset, holding no page.
    pub fn evict_frame(&mut self, fid: FrameId)
        requires
            old(self).wf(),
            fid < old(self).frames@.len(),
            old(self).frames@[fid as int].block_id != EMPTY_PAGE,
            old(self).frames@[fid as int].pin_count == 0,
        ensures
            final(self).wf(),
            final(self).table() == old(self).table().remove(old(self).frames@[fid as int].block_id),
            final(self).free_list == old(self).free_list,
            final(self).epochs == old(self).epochs,
            others_kept(*final(self), *old(self), fid as int),
            final(self).frames@[fid as int].block_id == EMPTY_PAGE,
            final(self).frames@[fid as int].pin_count == 0,
            final(self).frames@[fid as int].latch.version == 0,
            !final(self).frames@[fid as int].is_dirty,
            final(self).frames@[fid as int].last_epoch == 0,
            final(self).frames@[fid as int].len == old(self).frames@[fid as int].len,
            final(self).frames@[fid as int].node_type == old(self).frames@[fid as int].node_type,
            final(self).frames@[fid as int].data == old(self).frames@[fid as int].data,
            final(self).replacer.evictable@ == old(self).replacer.evictable@.update(fid as int, false),
            final(self).replacer.ref_bit == old(self).replacer.ref_bit,
    {
        let ghost before = *self;
        let fi = fid as usize;
        let old_bid = self.frames[fi].block_id;
        page_table_remove(&mut self.page_table, old_bid);
        self.frames[fi].reset_metadata(EMPTY_PAGE, 0);
        self.replacer.set_evictable(fid, false);
        proof {
            assert(!before.free_list@.contains(fid)) by {
                if before.free_list@.contains(fid) {
                    let j = choose|j: int| 0 <= j < before.free_list@.len() && before.free_list@[j] == fid;
                    assert(before.frames@[before.free_list@[j] as int].block_id == EMPTY_PAGE);
                }
            }
            Self::lemma_evicted_keeps_wf(*self, before, fid as int);
        }
    }

    /// Pins the page of `block_id` for a writer. A cached page is pinned at
    /// once and stamped with the next epoch. Otherwise a frame is found for
    /// it as `alloc_frame` does; the page is then to be read from disk and
    /// handed to `install_page`.
    pub fn fetch_page(&mut self, block_id: BlockID) -> (r: FetchStep)
        requires
            old(self).wf(),
            block_id != EMPTY_PAGE,
        ensures
            final(self).wf(),
            old(self).epochs.global_epoch == u64::MAX ==> r == FetchStep::Unavailable && *final(self) == *old(self),
            old(self).epochs.global_epoch < u64::MAX && old(self).table().dom().contains(block_id) ==> {
                &&& r == FetchStep::Hit(old(self).table()[block_id])
                &&& pinned(*old(self), *final(self), old(self).table()[block_id], (old(self).epochs.global_epoch + 1) as u64)
            },
            old(self).epochs.global_epoch < u64::MAX && !old(self).table().dom().contains(block_id) ==> {
                &&& !(r is Hit)
                &&& alloc_outcome(*old(self), *final(self), fetch_as_alloc(r))
            },
    {
        if self.epochs.current() == u64::MAX {
            return FetchStep::Unavailable;
        }
        match page_table_get(&self.page_table, block_id) {
            Some(fid) => {
                let ghost before = *self;
                let e = self.epochs.advance();
                proof {
                    assert(self.table() == before.table());
                    assert(self.frames@ == before.frames@);
                }
                self.pin_cached(fid, e);
                FetchStep::Hit(fid)
            },
            None => match self.alloc_frame() {
                AllocStep::Ready(f) => FetchStep::Read(f),
                AllocStep::WriteBack(f, b) => FetchStep::WriteBack(f, b),
                AllocStep::Unavailable => FetchStep::Unavailable,
            },
        }
    }

    /// Puts the page of `block_id`, read from disk into `data`, in frame
    /// `fid` (a frame `fetch_page` found for it): live/dead counters and node
    /// type come from the page header; the frame is pinned once, stamped with
    /// the next epoch, referenced and not evictable.
    pub fn install_page(&mut self, fid: FrameId, block_id: BlockID, data: Vec<u8>)
        requires
            old(self).wf(),
            fid < old(self).frames@.len(),
            old(self).frames@[fid as int].block_id == EMPTY_PAGE,
            !old(self).free_list@.contains(fid),
            !old(self).table().dom().contains(block_id),
            block_id != EMPTY_PAGE,
            data@.len() == PAGE_SIZE,
            old(self).epochs.global_epoch < u64::MAX,
        ensures
            final(self).wf(),
            final(self).table() == old(self).table().insert(block_id, fid),
            final(self).free_list == old(self).free_list,
            final(self).epochs.global_epoch == old(self).epochs.global_epoch + 1,
            final(self).epochs.slots == old(self).epochs.slots,
            others_kept(*final(self), *old(self), fid as int),
            final(self).frames@[fid as int].data@ == data@,
            final(self).frames@[fid as int].block_id == block_id,
            final(self).frames@[fid as int].pin_count == 1,
            final(self).frames@[fid as int].last_epoch == old(self).epochs.global_epoch + 1,
            spec_active_len(final(self).frames@[fid as int].len) == le_u16(
                data@[PAGE_HEADER_LIVE_OFF as int],
                data@[PAGE_HEADER_LIVE_OFF + 1],
            ),
            spec_dead_len(final(self).frames@[fid as int].len) == le_u16(
                data@[PAGE_HEADER_DEAD_OFF as int],
                data@[PAGE_HEADER_DEAD_OFF + 1],
            ),
            final(self).frames@[fid as int].node_type == data@[PAGE_HEADER_TYPE_OFF as int],
            final(self).frames@[fid as int].latch == old(self).frames@[fid as int].latch,
            final(self).frames@[fid as int].is_dirty == old(self).frames@[fid as int].is_dirty,
            final(self).replacer.evictable@ == old(self).replacer.evictable@.update(fid as int, false),
            final(self).replacer.ref_bit@ == old(self).replacer.ref_bit@.update(fid as int, true),
    {
        let ghost before = *self;
        let fi = fid as usize;
        self.frames[fi].data = data;
        self.frames[fi].rebuild_len_from_header();
        let e = self.epochs.advance();
        self.frames[fi].last_epoch = e;
        self.frames[fi].pin_count = 1;
        self.frames[fi].block_id = block_id;
        page_table_insert(&mut self.page_table, block_id, fid);
        self.replacer.set_evictable(fid, false);
        self.replacer.record_access(fid);
        proof {
            Self::lemma_installed_keeps_wf(*self, before, fid as int, block_id);
        }
    }

    /// Sets up a new page of `block_id` in frame `fid` (a frame
    /// `alloc_frame` found for it): zeroed but for the block id and the node
    /// type, no entries, dirty, pinned once, stamped with the next epoch and
    /// not evictable.
    pub fn init_new_page(&mut self, fid: FrameId, block_id: BlockID, node_type: NodeType)
        requires
            old(self).wf(),
            fid < old(self).frames@.len(),
            old(self).frames@[fid as int].block_id == EMPTY_PAGE,
            !old(self).free_list@.contains(fid),
            !old(self).table().dom().contains(block_id),
            block_id != EMPTY_PAGE,
            old(self).epochs.global_epoch < u64::MAX,
        ensures
            final(self).wf(),
            final(self).table() == old(self).table().insert(block_id, fid),
            final(self).free_list == old(self).free_list,
            final(self).epochs.global_epoch == old(self).epochs.global_epoch + 1,
            final(self).epochs.slots == old(self).epochs.slots,
            others_kept(*final(self), *old(self), fid as int),
            final(self).frames@[fid as int].data@ == fresh_page(block_id, node_type.byte()),
            final(self).frames@[fid as int].node_type == node_type.byte(),
            final(self).frames@[fid as int].len == 0,
            final(self).frames@[fid as int].is_dirty,
            final(self).frames@[fid as int].pin_count == 1,
            final(self).frames@[fid as int].last_epoch == old(self).epochs.global_epoch + 1,
            final(self).frames@[fid as int].block_id == block_id,
            final(self).frames@[fid as int].latch == old(self).frames@[fid as int].latch,
            final(self).replacer.evictable@ == old(self).replacer.evictable@.update(fid as int, false),
            final(self).replacer.ref_bit == old(self).replacer.ref_bit,
    {
        let ghost before = *self;
        let fi = fid as usize;
        let t = node_type.as_u8();
        self.frames[fi].data = fresh_page_bytes(block_id, t);
        self.frames[fi].node_type = t;
        self.frames[fi].len = 0;
        self.frames[fi].is_dirty = true;
        self.frames[fi].pin_count = 1;
        let e = self.epochs.advance();
        self.frames[fi].last_epoch = e;
        self.frames[fi].block_id = block_id;
        page_table_insert(&mut self.page_table, block_id, fid);
        self.replacer.set_evictable(fid, false);
        proof {
            Self::lemma_installed_keeps_wf(*self, before, fid as int, block_id);
        }
    }

    /// Makes the cached page of `block_id` in frame `fid` a new node again:
    /// fresh bytes, unlocked, no entries, dirty, pinned once more.
    fn reinit_existing(&mut self, fid: FrameId, block_id: BlockID, node_type: NodeType)
        requires
            old(self).wf(),
            old(self).table().dom().contains(block_id),
            old(self).table()[block_id] == fid,
        ensures
            final(self).wf(),
            final(self).table() == old(self).table(),
            final(self).free_list == old(self).free_list,
            final(self).epochs == old(self).epochs,
            final(self).replacer == old(self).replacer,
            others_kept(*final(self), *old(self), fid as int),
            final(self).frames@[fid as int].data@ == fresh_page(block_id, node_type.byte()),
            final(self).frames@[fid as int].latch.version == 0,
            final(self).frames@[fid as int].node_type == node_type.byte(),
            final(self).frames@[fid as int].len == 0,
            final(self).frames@[fid as int].is_dirty,
            final(self).frames@[fid as int].pin_count == old(self).frames@[fid as int].pin_count.wrapping_add(1),
            final(self).frames@[fid as int].last_epoch == old(self).frames@[fid as int].last_epoch,
            final(self).frames@[fid as int].block_id == block_id,
    {
        let ghost before = *self;
        let fi = fid as usize;
        let t = node_type.as_u8();
        self.frames[fi].data = fresh_page_bytes(block_id, t);
        self.frames[fi].latch.reset();
        self.frames[fi].node_type = t;
        self.frames[fi].len = 0;
        self.frames[fi].is_dirty = true;
        let pc = self.frames[fi].pin_count;
        self.frames[fi].pin_count = pc.wrapping_add(1);
        proof {
            assert(!before.free_list@.contains(fid)) by {
                if before.free_list@.contains(fid) {
                    let j = choose|j: int| 0 <= j < before.free_list@.len() && before.free_list@[j] == fid;
                    assert(before.frames@[before.free_list@[j] as int].block_id == EMPTY_PAGE);
                }
            }
            Self::lemma_frame_update_keeps_wf(*self, before, fid as int);
        }
    }

    /// A new page of `block_id`, pinned for its writer. A page already cached
    /// is made new in place; otherwise a frame is found as `alloc_frame` does
    /// and the page is set up there (`init_new_page`).
    pub fn alloc_new_page(&mut self, block_id: BlockID, node_type: NodeType) -> (r: NewPageStep)
        requires
            old(self).wf(),
            block_id != EMPTY_PAGE,
        ensures
            final(self).wf(),
            old(self).table().dom().contains(block_id) ==> {
                let f = old(self).table()[block_id];
                &&& r == NewPageStep::Done(f)
                &&& final(self).table() == old(self).table()
                &&& final(self).free_list == old(self).free_list
                &&& final(self).epochs == old(self).epochs
                &&& final(self).replacer == old(self).replacer
                &&& others_kept(*final(self), *old(self), f as int)
                &&& final(self).frames@[f as int].data@ == fresh_page(block_id, node_type.byte())
                &&& final(self).frames@[f as int].latch.version == 0
                &&& final(self).frames@[f as int].node_type == node_type.byte()
                &&& final(self).frames@[f as int].len == 0
                &&& final(self).frames@[f as int].is_dirty
                &&& final(self).frames@[f as int].pin_count == old(self).frames@[f as int].pin_count.wrapping_add(1)
                &&& final(self).frames@[f as int].last_epoch == old(self).frames@[f as int].last_epoch
                &&& final(self).frames@[f as int].block_id == block_id
            },
            !old(self).table().dom().contains(block_id) && old(self).epochs.global_epoch == u64::MAX ==> {
                &&& r == NewPageStep::Unavailable
                &&& *final(self) == *old(self)
            },
            !old(self).table().dom().contains(block_id) && old(self).epochs.global_epoch < u64::MAX ==> match r {
                NewPageStep::Done(f) => {
                    &&& ready_choice(*old(self), f)
                    &&& f < old(self).frames@.len()
                    &&& free_list_after(*old(self), *final(self))
                    &&& others_kept(*final(self), *old(self), f as int)
                    &&& final(self).table() == old(self).table().remove(old(self).frames@[f as int].block_id).insert(
                        block_id,
                        f,
                    )
                    &&& final(self).epochs.global_epoch == old(self).epochs.global_epoch + 1
                    &&& final(self).epochs.slots == old(self).epochs.slots
                    &&& final(self).frames@[f as int].data@ == fresh_page(block_id, node_type.byte())
                    &&& final(self).frames@[f as int].node_type == node_type.byte()
                    &&& final(self).frames@[f as int].len == 0
                    &&& final(self).frames@[f as int].is_dirty
                    &&& final(self).frames@[f as int].pin_count == 1
                    &&& final(self).frames@[f as int].last_epoch == old(self).epochs.global_epoch + 1
                    &&& final(self).frames@[f as int].block_id == block_id
                    &&& (old(self).free_list@.len() == 0 ==> final(self).frames@[f as int].latch.version == 0)
                    &&& (old(self).free_list@.len() > 0 ==> final(self).frames@[f as int].latch
                        == old(self).frames@[f as int].latch)
                    &&& !final(self).replacer.evictable@[f as int]
                },
                _ => alloc_outcome(*old(self), *final(self), new_page_as_alloc(r)),
            },
    {
        match page_table_get(&self.page_table, block_id) {
            Some(fid) => {
                self.reinit_existing(fid, block_id, node_type);
                return NewPageStep::Done(fid);
            },
            None => {},
        }
        if self.epochs.current() == u64::MAX {
            return NewPageStep::Unavailable;
        }
        match self.alloc_frame() {
            AllocStep::Ready(f) => {
                self.init_new_page(f, block_id, node_type);
                NewPageStep::Done(f)
            },
            AllocStep::WriteBack(f, b) => NewPageStep::WriteBack(f, b),
            AllocStep::Unavailable => NewPageStep::Unavailable,
        }
    }

    /// Drops one writer pin of the cached page of `block_id`, marking it
    /// dirty when the writer changed it; the last pin makes the frame
    /// evictable. A page that is not cached is left alone.
    pub fn unpin_page(&mut self, block_id: BlockID, dirty: bool)
        requires
            old(self).wf(),
            old(self).table().dom().contains(block_id) ==> old(self).frames@[old(self).table()[block_id] as int].pin_count
                > 0,
        ensures
            final(self).wf(),
            !old(self).table().dom().contains(block_id) ==> *final(self) == *old(self),
            old(self).table().dom().contains(block_id) ==> {
                let f = old(self).table()[block_id];
                let fr = old(self).frames@[f as int];
                &&& others_kept(*final(self), *old(self), f as int)
                &&& final(self).frames@[f as int] == (Frame {
                    pin_count: (fr.pin_count - 1) as u32,
                    is_dirty: fr.is_dirty || dirty,
                    ..fr
                })
                &&& final(self).table() == old(self).table()
                &&& final(self).free_list == old(self).free_list
                &&& final(self).epochs == old(self).epochs
                &&& final(self).replacer.evictable@ == if fr.pin_count == 1 {
                    old(self).replacer.evictable@.update(f as int, true)
                } else {
                    old(self).replacer.evictable@
                }
                &&& final(self).replacer.ref_bit == old(self).replacer.ref_bit
                &&& final(self).replacer.hand == old(self).replacer.hand
                &&& final(self).replacer.n == old(self).replacer.n
            },
    {
        match page_table_get(&self.page_table, block_id) {
            Some(fid) => {
                let ghost before = *self;
                let fi = fid as usize;
                if dirty {
                    self.frames[fi].is_dirty = true;
                }
                let prev = self.frames[fi].pin_count;
                self.frames[fi].pin_count = prev - 1;
                if prev == 1 {
                    self.replacer.set_evictable(fid, true);
                }
                proof {
                    assert(!before.free_list@.contains(fid)) by {
                        if before.free_list@.contains(fid) {
                            let j = choose|j: int| 0 <= j < before.free_list@.len() && before.free_list@[j] == fid;
                            assert(before.frames@[before.free_list@[j] as int].block_id == EMPTY_PAGE);
                        }
                    }
                    Self::lemma_frame_update_keeps_wf(*self, before, fid as int);
                }
            },
            None => {},
        }
    }

    /// Prepares the cached page of `block_id` for writing to disk, if it is
    /// dirty: its header gets the live/dead counters and the node type, and
    /// its frame is returned. Once the bytes are written, `finish_flush`
    /// marks the frame clean. Otherwise nothing is to be written.
    pub fn flush_page(&mut self, block_id: BlockID) -> (r: Option<FrameId>)
        requires
            old(self).wf(),
        ensures
            final(self).wf(),
            r is Some <==> (old(self).table().dom().contains(block_id)
                && old(self).frames@[old(self).table()[block_id] as int].is_dirty),
            r is None ==> *final(self) == *old(self),
            r matches Some(f) ==> {
                &&& f == old(self).table()[block_id]
                &&& others_kept(*final(self), *old(self), f as int)
                &&& same_meta(final(self).frames@[f as int], old(self).frames@[f as int])
                &&& final(self).frames@[f as int].data@ == synced_data(old(self).frames@[f as int])
                &&& final(self).table() == old(self).table()
                &&& final(self).free_list == old(self).free_list
                &&& final(self).epochs == old(self).epochs
                &&& final(self).replacer == old(self).replacer
            },
    {
        match page_table_get(&self.page_table, block_id) {
            Some(fid) => {
                proof {
                    assert(self.table().dom().contains(block_id));
                }
                let fi = fid as usize;
                if self.frames[fi].is_dirty {
                    let ghost before = *self;
                    self.frames[fi].sync_header_for_flush();
                    proof {
                        assert(!before.free_list@.contains(fid)) by {
                            if before.free_list@.contains(fid) {
                                let j = choose|j: int| 0 <= j < before.free_list@.len() && before.free_list@[j] == fid;
                                assert(before.frames@[before.free_list@[j] as int].block_id == EMPTY_PAGE);
                            }
                        }
                        Self::lemma_frame_update_keeps_wf(*self, before, fid as int);
                    }
                    Some(fid)
                } else {
                    None
                }
            },
            None => None,
        }
    }

    /// Marks frame `fid` clean: its page has been written to disk.
    pub fn finish_flush(&mut self, fid: FrameId)
        requires
            old(self).wf(),
            fid < old(self).frames@.len(),
        ensures
            final(self).wf(),
            others_kept(*final(self), *old(self), fid as int),
            final(self).frames@[fid as int] == (Frame { is_dirty: false, ..old(self).frames@[fid as int] }),
            final(self).page_table == old(self).page_table,
            final(self).free_list == old(self).free_list,
            final(self).epochs == old(self).epochs,
            final(self).replacer == old(self).replacer,
    {
        let ghost before = *self;
        self.frames[fid as usize].is_dirty = false;
        proof {
            assert forall|g: int| 0 <= g < self.frames@.len() implies (#[trigger] self.frames@[g]).wf() by {
                assert(before.frames@[g].wf());
            }
            assert forall|b: u64| #[trigger] self.table().dom().contains(b) implies {
                &&& self.table()[b] < self.frames@.len()
                &&& self.frames@[self.table()[b] as int].block_id == b
                &&& b != EMPTY_PAGE
            } by {
                assert(before.table().dom().contains(b));
            }
            assert forall|g: int| 0 <= g < self.frames@.len() && (#[trigger] self.frames@[g]).block_id != EMPTY_PAGE implies {
                &&& self.table().dom().contains(self.frames@[g].block_id)
                &&& self.table()[self.frames@[g].block_id] == g
            } by {
                assert(before.frames@[g].block_id == self.frames@[g].block_id);
            }
            assert forall|i: int| 0 <= i < self.free_list@.len() implies {
                &&& (#[trigger] self.free_list@[i]) < self.frames@.len()
                &&& self.frames@[self.free_list@[i] as int].block_id == EMPTY_PAGE
                &&& self.frames@[self.free_list@[i] as int].pin_count == 0
                &&& !self.replacer.evictable@[self.free_list@[i] as int]
            } by {
                assert(before.free_list@[i] < before.frames@.len());
            }
        }
    }

    /// The frame of the cached page of `block_id` for a reader, which takes
    /// no pin: the frame is only stamped with the next epoch. `None` when the
    /// page is not cached, or the epoch counter is exhausted.
    pub fn resolve_for_reader(&mut self, block_id: BlockID) -> (r: Option<FrameId>)
        requires
            old(self).wf(),
        ensures
            final(self).wf(),
            r is Some <==> (old(self).table().dom().contains(block_id) && old(self).epochs.global_epoch < u64::MAX),
            r is None ==> *final(self) == *old(self),
            r matches Some(f) ==> {
                &&& f == old(self).table()[block_id]
                &&& final(self).frames@[f as int].block_id == block_id
                &&& others_kept(*final(self), *old(self), f as int)
                &&& final(self).frames@[f as int] == (Frame {
                    last_epoch: (old(self).epochs.global_epoch + 1) as u64,
                    ..old(self).frames@[f as int]
                })
                &&& final(self).epochs.global_epoch == old(self).epochs.global_epoch + 1
                &&& final(self).epochs.slots == old(self).epochs.slots
                &&& final(self).page_table == old(self).page_table
                &&& final(self).free_list == old(self).free_list
                &&& final(self).replacer == old(self).replacer
            },
    {
        match page_table_get(&self.page_table, block_id) {
            Some(fid) => {
                proof {
                    assert(self.table().dom().contains(block_id));
                }
                if self.epochs.current() == u64::MAX {
                    return None;
                }
                let ghost before = *self;
                let e = self.epochs.advance();
                self.frames[fid as usize].last_epoch = e;
                proof {
                    assert(!before.free_list@.contains(fid)) by {
                        if before.free_list@.contains(fid) {
                            let j = choose|j: int| 0 <= j < before.free_list@.len() && before.free_list@[j] == fid;
                            assert(before.frames@[before.free_list@[j] as int].block_id == EMPTY_PAGE);
                        }
                    }
                    Self::lemma_frame_update_keeps_wf(*self, before, fid as int);
                }
                Some(fid)
            },
            None => None,
        }
    }

    /// Whether frame `fid` still holds the page of `expected_block_id`.
    pub fn validate_frame(&self, fid: FrameId, expected_block_id: BlockID) -> (r: bool)
        requires
            fid < self.frames@.len(),
        ensures
            r == (self.frames@[fid as int].block_id == expected_block_id),
    {
        self.frames[fid as usize].block_id == expected_block_id
    }

    /// Evicts the cached page of `block_id` when it is unpinned and predates
    /// every active reader; its frame goes back to the free list (a dead page
    /// needs no write-back). True when the page is gone from the pool, false
    /// when it has to stay for now.
    pub fn force_evict_if_safe(&mut self, block_id: BlockID) -> (r: bool)
        requires
            old(self).wf(),
        ensures
            final(self).wf(),
            !old(self).table().dom().contains(block_id) ==> r && *final(self) == *old(self),
            old(self).table().dom().contains(block_id) ==> {
                let f = old(self).table()[block_id];
                let fr = old(self).frames@[f as int];
                &&& r == (fr.pin_count == 0 && epoch_safe(old(self).epochs.slots@, fr.last_epoch))
                &&& !r ==> *final(self) == *old(self)
                &&& r ==> {
                    &&& final(self).table() == old(self).table().remove(block_id)
                    &&& final(self).free_list@ == old(self).free_list@.push(f)
                    &&& others_kept(*final(self), *old(self), f as int)
                    &&& final(self).frames@[f as int] == (Frame { block_id: EMPTY_PAGE, is_dirty: false, ..fr })
                    &&& final(self).replacer.evictable@ == old(self).replacer.evictable@.update(f as int, false)
                    &&& final(self).replacer.ref_bit == old(self).replacer.ref_bit
                    &&& final(self).epochs == old(self).epochs
                }
            },
    {
        let fid = match page_table_get(&self.page_table, block_id) {
            Some(fid) => fid,
            None => {
                return true;
            },
        };
        proof {
            assert(self.table().dom().contains(block_id));
        }
        let fi = fid as usize;
        if self.frames[fi].pin_count > 0 {
            return false;
        }
        let fe = self.frames[fi].last_epoch;
        if !self.epochs.safe_to_evict(fe) {
            return false;
        }
        let ghost before = *self;
        page_table_remove(&mut self.page_table, block_id);
        self.frames[fi].block_id = EMPTY_PAGE;
        self.frames[fi].is_dirty = false;
        self.replacer.set_evictable(fid, false);
        self.free_list.push_back(fid);
        proof {
            assert(!before.free_list@.contains(fid)) by {
                if before.free_list@.contains(fid) {
                    let j = choose|j: int| 0 <= j < before.free_list@.len() && before.free_list@[j] == fid;
                    assert(before.frames@[before.free_list@[j] as int].block_id == EMPTY_PAGE);
                }
            }
            Self::lemma_freed_keeps_wf(*self, before, fid as int);
        }
        true
    }

    /// The frame `fid`.
    pub fn frame(&self, fid: FrameId) -> (r: &Frame)
        requires
            fid < self.frames@.len(),
        ensures
            *r == self.frames@[fid as int],
    {
        &self.frames[fid as usize]
    }

    /// Freeing frame `c`, which held a page and now holds none, is unpinned
    /// and not evictable, onto the end of the free list keeps the bookkeeping.
    proof fn lemma_freed_keeps_wf(after: Self, before: Self, c: int)
        requires
            before.wf(),
            0 <= c < before.frames@.len(),
            !before.free_list@.contains(c as u32),
            before.frames@[c].block_id != EMPTY_PAGE,
            others_kept(after, before, c),
            after.frames@[c].block_id == EMPTY_PAGE,
            after.frames@[c].pin_count == 0,
            after.frames@[c].wf(),
            after.table() == before.table().remove(before.frames@[c].block_id),
            after.free_list@ == before.free_list@.push(c as u32),
            after.replacer.wf(),
            after.replacer.n == before.replacer.n,
            after.replacer.evictable@ == before.replacer.evictable@.update(c, false),
            after.epochs == before.epochs,
        ensures
            after.wf(),
    {
        assert forall|g: int| 0 <= g < after.frames@.len() implies (#[trigger] after.frames@[g]).wf() by {
            if g != c {
                assert(before.frames@[g].wf());
            }
        }
        assert forall|b: u64| #[trigger] after.table().dom().contains(b) implies {
            &&& after.table()[b] < after.frames@.len()
            &&& after.frames@[after.table()[b] as int].block_id == b
            &&& b != EMPTY_PAGE
        } by {
            assert(before.table().dom().contains(b));
            assert(before.table()[b] != c);
        }
        assert forall|g: int| 0 <= g < after.frames@.len() && (#[trigger] after.frames@[g]).block_id != EMPTY_PAGE implies {
            &&& after.table().dom().contains(after.frames@[g].block_id)
            &&& after.table()[after.frames@[g].block_id] == g
        } by {
            assert(g != c);
            assert(before.frames@[g].block_id == after.frames@[g].block_id);
            assert(before.table()[before.frames@[g].block_id] == g);
            assert(before.frames@[g].block_id != before.frames@[c].block_id);
        }
        assert forall|i: int| 0 <= i < after.free_list@.len() implies {
            &&& (#[trigger] after.free_list@[i]) < after.frames@.len()
            &&& after.frames@[after.free_list@[i] as int].block_id == EMPTY_PAGE
            &&& after.frames@[after.free_list@[i] as int].pin_count == 0
            &&& !after.replacer.evictable@[after.free_list@[i] as int]
        } by {
            if i < before.free_list@.len() {
                assert(after.free_list@[i] == before.free_list@[i]);
                assert(before.free_list@[i] != c as u32) by {
                    if before.free_list@[i] == c as u32 {
                        assert(before.free_list@.contains(c as u32));
                    }
                }
            }
        }
        assert(after.free_list@.no_duplicates()) by {
            assert forall|i: int, j: int|
                0 <= i < after.free_list@.len() && 0 <= j < after.free_list@.len() && i != j
                    implies after.free_list@[i] != after.free_list@[j] by {
                if i == before.free_list@.len() {
                    assert(after.free_list@[j] == before.free_list@[j]);
                    if before.free_list@[j] == c as u32 {
                        assert(before.free_list@.contains(c as u32));
                    }
                } else if j == before.free_list@.len() {
                    assert(after.free_list@[i] == before.free_list@[i]);
                    if before.free_list@[i] == c as u32 {
                        assert(before.free_list@.contains(c as u32));
                    }
                }
            }
        }
    }

    /// Changing one frame outside the free list, without moving it to another
    /// block, keeps the bookkeeping; so does any change of the replacer's
    /// bits for that frame.
    proof fn lemma_frame_update_keeps_wf(after: Self, before: Self, f: int)
        requires
            before.wf(),
            0 <= f < before.frames@.len(),
            !before.free_list@.contains(f as u32),
            others_kept(after, before, f),
            after.frames@[f].block_id == before.frames@[f].block_id,
            after.frames@[f].wf(),
            after.page_table == before.page_table,
            after.free_list == before.free_list,
            after.replacer.wf(),
            after.replacer.n == before.replacer.n,
            forall|g: int| 0 <= g < before.frames@.len() && g != f
                ==> after.replacer.evictable@[g] == before.replacer.evictable@[g],
            after.epochs.wf(),
        ensures
            after.wf(),
    {
        assert forall|g: int| 0 <= g < after.frames@.len() implies (#[trigger] after.frames@[g]).wf() by {
            if g != f {
                assert(before.frames@[g].wf());
            }
        }
        assert forall|b: u64| #[trigger] after.table().dom().contains(b) implies {
            &&& after.table()[b] < after.frames@.len()
            &&& after.frames@[after.table()[b] as int].block_id == b
            &&& b != EMPTY_PAGE
        } by {
            assert(before.table().dom().contains(b));
        }
        assert forall|g: int| 0 <= g < after.frames@.len() && (#[trigger] after.frames@[g]).block_id != EMPTY_PAGE implies {
            &&& after.table().dom().contains(after.frames@[g].block_id)
            &&& after.table()[after.frames@[g].block_id] == g
        } by {
            assert(before.frames@[g].block_id == after.frames@[g].block_id);
        }
        assert forall|i: int| 0 <= i < after.free_list@.len() implies {
            &&& (#[trigger] after.free_list@[i]) < after.frames@.len()
            &&& after.frames@[after.free_list@[i] as int].block_id == EMPTY_PAGE
            &&& after.frames@[after.free_list@[i] as int].pin_count == 0
            &&& !after.replacer.evictable@[after.free_list@[i] as int]
        } by {
            assert(before.free_list@[i] < before.frames@.len());
            assert(before.free_list@[i] != f as u32) by {
                if before.free_list@[i] == f as u32 {
                    assert(before.free_list@.contains(f as u32));
                }
            }
        }
    }

    /// Putting block `b`, which no frame holds, into frame `f`, which is free
    /// but outside the free list, keeps the bookkeeping.
    proof fn lemma_installed_keeps_wf(after: Self, before: Self, f: int, b: u64)
        requires
            before.wf(),
            0 <= f < before.frames@.len(),
            !before.free_list@.contains(f as u32),
            before.frames@[f].block_id == EMPTY_PAGE,
            !before.table().dom().contains(b),
            b != EMPTY_PAGE,
            others_kept(after, before, f),
            after.frames@[f].block_id == b,
            after.frames@[f].wf(),
            after.table() == before.table().insert(b, f as u32),
            after.free_list == before.free_list,
            after.replacer.wf(),
            after.replacer.n == before.replacer.n,
            forall|g: int| 0 <= g < before.frames@.len() && g != f
                ==> after.replacer.evictable@[g] == before.replacer.evictable@[g],
            after.epochs.wf(),
        ensures
            after.wf(),
    {
        assert forall|g: int| 0 <= g < after.frames@.len() implies (#[trigger] after.frames@[g]).wf() by {
            if g != f {
                assert(before.frames@[g].wf());
            }
        }
        assert forall|k: u64| #[trigger] after.table().dom().contains(k) implies {
            &&& after.table()[k] < after.frames@.len()
            &&& after.frames@[after.table()[k] as int].block_id == k
            &&& k != EMPTY_PAGE
        } by {
            if k != b {
                assert(before.table().dom().contains(k));
                assert(before.table()[k] != f);
            }
        }
        assert forall|g: int| 0 <= g < after.frames@.len() && (#[trigger] after.frames@[g]).block_id != EMPTY_PAGE implies {
            &&& after.table().dom().contains(after.frames@[g].block_id)
            &&& after.table()[after.frames@[g].block_id] == g
        } by {
            if g != f {
                assert(before.frames@[g].block_id == after.frames@[g].block_id);
                assert(before.table().dom().contains(before.frames@[g].block_id));
            }
        }
        assert forall|i: int| 0 <= i < after.free_list@.len() implies {
            &&& (#[trigger] after.free_list@[i]) < after.frames@.len()
            &&& after.frames@[after.free_list@[i] as int].block_id == EMPTY_PAGE
            &&& after.frames@[after.free_list@[i] as int].pin_count == 0
            &&& !after.replacer.evictable@[after.free_list@[i] as int]
        } by {
            assert(before.free_list@[i] < before.frames@.len());
            assert(before.free_list@[i] != f as u32) by {
                if before.free_list@[i] == f as u32 {
                    assert(before.free_list@.contains(f as u32));
                }
            }
        }
    }

    /// Evicting frame `c`, an evictable frame whose page leaves the page
    /// table, keeps the bookkeeping.
    proof fn lemma_evicted_keeps_wf(after: Self, before: Self, c: int)
        requires
            before.wf(),
            0 <= c < before.frames@.len(),
            !before.free_list@.contains(c as u32),
            after.frames@.len() == before.frames@.len(),
            after.frames@[c].block_id == EMPTY_PAGE,
            after.frames@[c].wf(),
            forall|g: int| 0 <= g < before.frames@.len() && g != c ==> after.frames@[g] == before.frames@[g],
            after.table() == before.table().remove(before.frames@[c].block_id),
            after.free_list == before.free_list,
            after.replacer.wf(),
            after.replacer.n == before.replacer.n,
            after.replacer.evictable@ == before.replacer.evictable@.update(c, false),
            after.epochs == before.epochs,
        ensures
            after.wf(),
    {
        assert forall|g: int| 0 <= g < after.frames@.len() implies (#[trigger] after.frames@[g]).wf() by {
            if g != c {
                assert(before.frames@[g].wf());
            }
        }
        assert forall|b: u64| #[trigger] after.table().dom().contains(b) implies {
            &&& after.table()[b] < after.frames@.len()
            &&& after.frames@[after.table()[b] as int].block_id == b
            &&& b != EMPTY_PAGE
        } by {
            assert(before.table().dom().contains(b));
            assert(before.table()[b] != c);
        }
        assert forall|g: int| 0 <= g < after.frames@.len() && (#[trigger] after.frames@[g]).block_id != EMPTY_PAGE implies {
            &&& after.table().dom().contains(after.frames@[g].block_id)
            &&& after.table()[after.frames@[g].block_id] == g
        } by {
            assert(g != c);
            assert(before.frames@[g].block_id == after.frames@[g].block_id);
            assert(before.table()[before.frames@[g].block_id] == g);
            assert(before.frames@[g].block_id != before.frames@[c].block_id);
        }
        assert forall|i: int| 0 <= i < after.free_list@.len() implies {
            &&& (#[trigger] after.free_list@[i]) < after.frames@.len()
            &&& after.frames@[after.free_list@[i] as int].block_id == EMPTY_PAGE
            &&& after.frames@[after.free_list@[i] as int].pin_count == 0
            &&& !after.replacer.evictable@[after.free_list@[i] as int]
        } by {
            assert(before.free_list@[i] < before.frames@.len());
            assert(before.free_list@[i] != c as u32) by {
                if before.free_list@[i] == c as u32 {
                    assert(before.free_list@.contains(c as u32));
                }
            }
        }
    }
}

} // verus!
