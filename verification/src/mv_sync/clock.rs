use vstd::prelude::*;
use crate::mv_record_model::version_info::Version;
use crate::mv_sync::version_handle::START_VERSION;

verus! {

/// Consecutive reads after which a thread gives up its published commit.
pub const MAX_READS_IN_ROW_EPSILON: usize = 100;

/// `reads_in_row` of a thread without a published commit.
pub const READ_IN_ROW_INACTIVE: usize = usize::MAX;

/// Published commit of a thread that has none.
pub const INACTIVE_COMMIT_VERSION_MAX: Version = u64::MAX;

/// `num_cpus::get_physical`: the number of physical cores. On the platforms
/// it inspects it falls back to `num_cpus::get`, which the crate documents as
/// always at least 1, whenever it cannot count cores; that lower bound is all
/// this contract states, the count itself depends on the machine.
#[verifier::external_body]
fn get_physical() -> (r: usize)
    ensures
        r >= 1,
{
    num_cpus::get_physical()
}

/// Shared commit bookkeeping: the last version each thread committed
/// (`INACTIVE_COMMIT_VERSION_MAX` when it has none), the newest version known
/// visible to every reader, and whether a commit was published since that
/// was computed.
pub struct CommitRegistry {
    pub committed: Vec<Version>,
    pub global_min: Version,
    pub global_dirty: bool,
    pub thread_count: usize,
}

/// A thread's handle on the registry: its slot and how many reads it has
/// served since its last commit (`READ_IN_ROW_INACTIVE` when its published
/// commit was withdrawn).
pub struct ThreadState {
    pub tid: usize,
    pub reads_in_row: usize,
}

/// Smallest of `acc` and the published commits of the first `n` threads.
pub open spec fn min_commit(committed: Seq<Version>, n: int, acc: Version) -> Version
    decreases n,
{
    if n <= 0 {
        acc
    } else {
        let m = min_commit(committed, n - 1, acc);
        if committed[n - 1] < m { committed[n - 1] } else { m }
    }
}

impl CommitRegistry {
    pub open spec fn wf(self) -> bool {
        self.thread_count <= self.committed@.len()
    }

    /// No threads, no commits; everything up to the start version is visible.
    pub fn new() -> (r: Self)
        ensures
            r.wf(),
            r.thread_count == 0,
            r.global_min == START_VERSION,
            !r.global_dirty,
    {
        CommitRegistry {
            committed: Vec::new(),
            global_min: START_VERSION,
            global_dirty: false,
            thread_count: 0,
        }
    }

    /// Publishes `version` as the last commit of thread `id`.
    pub fn thread_local_commit(&mut self, id: usize, version: Version)
        requires
            old(self).wf(),
            id < old(self).committed@.len(),
        ensures
            final(self).wf(),
            final(self).committed@ == old(self).committed@.update(id as int, version),
            final(self).global_dirty,
            final(self).global_min == old(self).global_min,
            final(self).thread_count == old(self).thread_count,
    {
        self.committed.set(id, version);
        self.global_dirty = true;
    }

    /// Withdraws the published commit of thread `id`.
    pub fn thread_local_commit_inactive(&mut self, id: usize)
        requires
            old(self).wf(),
            id < old(self).committed@.len(),
        ensures
            final(self).wf(),
            final(self).committed@ == old(self).committed@.update(id as int, INACTIVE_COMMIT_VERSION_MAX),
            final(self).global_dirty,
            final(self).global_min == old(self).global_min,
            final(self).thread_count == old(self).thread_count,
    {
        self.thread_local_commit(id, INACTIVE_COMMIT_VERSION_MAX);
    }
}

impl ThreadState {
    pub open spec fn wf(self, reg: CommitRegistry) -> bool {
        self.tid < reg.committed@.len()
    }

    /// Registers a new thread, growing the commit table by one slot per
    /// physical core until it has a slot for the thread.
    pub fn new(reg: &mut CommitRegistry) -> (r: Self)
        requires
            old(reg).wf(),
            old(reg).thread_count < usize::MAX,
        ensures
            final(reg).wf(),
            r.wf(*final(reg)),
            r.tid == old(reg).thread_count,
            r.reads_in_row == 0,
            final(reg).thread_count == old(reg).thread_count + 1,
            final(reg).committed@.take(old(reg).committed@.len() as int) == old(reg).committed@,
            forall|i: int| old(reg).committed@.len() <= i < final(reg).committed@.len()
                ==> final(reg).committed@[i] == INACTIVE_COMMIT_VERSION_MAX,
            final(reg).global_min == old(reg).global_min,
            final(reg).global_dirty == old(reg).global_dirty,
    {
        let tid = reg.thread_count;
        reg.thread_count = tid + 1;
        let ghost old_committed = reg.committed@;
        while tid >= reg.committed.len()
            invariant
                reg.thread_count == tid + 1,
                tid == old(reg).thread_count,
                reg.committed@.len() >= old_committed.len(),
                reg.committed@.take(old_committed.len() as int) == old_committed,
                old_committed == old(reg).committed@,
                forall|i: int| old_committed.len() <= i < reg.committed@.len()
                    ==> reg.committed@[i] == INACTIVE_COMMIT_VERSION_MAX,
                reg.global_min == old(reg).global_min,
                reg.global_dirty == old(reg).global_dirty,
            decreases tid + 1 - reg.committed@.len(),
        {
            let cores = get_physical();
            let mut k: usize = 0;
            let ghost before = reg.committed@.len();
            while k < cores && reg.committed.len() <= tid
                invariant
                    k <= cores,
                    reg.committed@.len() == before + k,
                    reg.committed@.take(old_committed.len() as int) == old_committed,
                    before >= old_committed.len(),
                    reg.committed@.len() <= tid + 1,
                    forall|i: int| old_committed.len() <= i < reg.committed@.len()
                        ==> reg.committed@[i] == INACTIVE_COMMIT_VERSION_MAX,
                    reg.thread_count == tid + 1,
                    reg.global_min == old(reg).global_min,
                    reg.global_dirty == old(reg).global_dirty,
                decreases cores - k,
            {
                reg.committed.push(INACTIVE_COMMIT_VERSION_MAX);
                proof {
                    assert(reg.committed@.take(old_committed.len() as int) =~= old_committed);
                }
                k = k + 1;
            }
        }
        ThreadState { tid, reads_in_row: 0 }
    }

    pub fn has_active_commit(&self) -> (r: bool)
        ensures
            r == (self.reads_in_row != READ_IN_ROW_INACTIVE),
    {
        self.reads_in_row != READ_IN_ROW_INACTIVE
    }

    /// Withdraws this thread's published commit.
    pub fn set_inactive_commit(&mut self, reg: &mut CommitRegistry)
        requires
            old(self).wf(*old(reg)),
            old(reg).wf(),
        ensures
            final(self).tid == old(self).tid,
            final(self).reads_in_row == READ_IN_ROW_INACTIVE,
            final(reg).wf(),
            final(reg).committed@ == old(reg).committed@.update(old(self).tid as int, INACTIVE_COMMIT_VERSION_MAX),
            final(reg).global_dirty,
            final(reg).global_min == old(reg).global_min,
            final(reg).thread_count == old(reg).thread_count,
    {
        self.reads_in_row = READ_IN_ROW_INACTIVE;
        reg.thread_local_commit_inactive(self.tid);
    }

    pub fn has_reads_in_row_max(&self) -> (r: bool)
        ensures
            r == (self.reads_in_row > MAX_READS_IN_ROW_EPSILON),
    {
        self.reads_in_row > MAX_READS_IN_ROW_EPSILON
    }

    pub fn inc_reads(&mut self)
        requires
            old(self).reads_in_row < usize::MAX,
        ensures
            final(self).reads_in_row == old(self).reads_in_row + 1,
            final(self).tid == old(self).tid,
    {
        self.reads_in_row = self.reads_in_row + 1;
    }

    pub fn reset_reads(&mut self)
        ensures
            final(self).reads_in_row == 0,
            final(self).tid == old(self).tid,
    {
        self.reads_in_row = 0;
    }
}

/// The snapshot a reader may use at clock time `clock_time`. A thread that
/// has served more than `MAX_READS_IN_ROW_EPSILON` reads since its last commit
/// withdraws that commit first. When no commit was published since the last
/// computation, the known visible version is returned; otherwise it is
/// recomputed as the smallest of `clock_time` and all published commits, the
/// stored value only ever grows, and the larger of the two is returned.
pub fn committed_read(reg: &mut CommitRegistry, state: &mut ThreadState, clock_time: Version) -> (r: Version)
    requires
        old(reg).wf(),
        old(state).wf(*old(reg)),
    ensures
        final(reg).wf(),
        final(state).tid == old(state).tid,
        final(reg).thread_count == old(reg).thread_count,
        r >= old(reg).global_min,
        final(reg).global_min == r,
        ({
            let withdraw = old(state).reads_in_row != READ_IN_ROW_INACTIVE && old(state).reads_in_row
                > MAX_READS_IN_ROW_EPSILON;
            let committed = if withdraw {
                old(reg).committed@.update(old(state).tid as int, INACTIVE_COMMIT_VERSION_MAX)
            } else {
                old(reg).committed@
            };
            let dirty = old(reg).global_dirty || withdraw;
            let agg = min_commit(committed, old(reg).thread_count as int, clock_time);
            &&& final(reg).committed@ == committed
            &&& final(state).reads_in_row == if withdraw {
                READ_IN_ROW_INACTIVE
            } else if old(state).reads_in_row != READ_IN_ROW_INACTIVE {
                (old(state).reads_in_row + 1) as usize
            } else {
                old(state).reads_in_row
            }
            &&& !dirty ==> r == old(reg).global_min && final(reg).global_min == old(reg).global_min
                && !final(reg).global_dirty
            &&& dirty ==> {
                &&& r == if agg > old(reg).global_min { agg } else { old(reg).global_min }
                &&& final(reg).global_min == r
                &&& !final(reg).global_dirty
            }
        }),
{
    if state.has_active_commit() {
        if state.has_reads_in_row_max() {
            state.set_inactive_commit(reg);
        } else {
            state.inc_reads();
        }
    }
    if !reg.global_dirty {
        reg.global_min
    } else {
        let mut agg_min_commit = clock_time;
        let mut i: usize = 0;
        let n = reg.thread_count;
        while i < n
            invariant
                i <= n,
                n == reg.thread_count,
                reg.wf(),
                agg_min_commit == min_commit(reg.committed@, i as int, clock_time),
            decreases n - i,
        {
            let c = reg.committed[i];
            if c < agg_min_commit {
                agg_min_commit = c;
            }
            i = i + 1;
        }
        let oo_min = reg.global_min;
        if agg_min_commit > oo_min {
            reg.global_min = agg_min_commit;
        }
        reg.global_dirty = false;
        if agg_min_commit > oo_min { agg_min_commit } else { oo_min }
    }
}

/// The commit clock: hands out consecutive versions to writers.
pub struct GlobalClock(pub Version);

impl GlobalClock {
    /// A clock at the start version.
    pub fn new() -> (r: GlobalClock)
        ensures
            r.0 == START_VERSION,
    {
        GlobalClock(START_VERSION)
    }

    /// The next version the clock hands out.
    pub fn current_version(&self) -> (r: Version)
        ensures
            r == self.0,
    {
        self.0
    }

    /// Takes the next version for a commit; the thread's read streak restarts.
    pub fn start_commit(&mut self, state: &mut ThreadState) -> (r: Version)
        requires
            old(self).0 < u64::MAX,
        ensures
            r == old(self).0,
            final(self).0 == old(self).0 + 1,
            final(state).reads_in_row == 0,
            final(state).tid == old(state).tid,
    {
        state.reset_reads();
        let v = self.0;
        self.0 = v + 1;
        v
    }

    /// Publishes a finished commit so that readers may see it.
    pub fn end_commit(&self, reg: &mut CommitRegistry, state: &ThreadState, version: Version)
        requires
            old(reg).wf(),
            state.wf(*old(reg)),
        ensures
            final(reg).wf(),
            final(reg).committed@ == old(reg).committed@.update(state.tid as int, version),
            final(reg).global_dirty,
            final(reg).global_min == old(reg).global_min,
            final(reg).thread_count == old(reg).thread_count,
    {
        reg.thread_local_commit(state.tid, version);
    }
}

} // verus!
