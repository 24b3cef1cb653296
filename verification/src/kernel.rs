//! The kernel's process-management state: every live task control block,
//! the ready queue, the processor, the pid allocator, the registered
//! application images and the clock.
//!
//! The original keeps the task manager and the processor as process-wide
//! singletons behind exclusive-access guards; here the same state is an
//! explicit value, so every access site is visible in a signature and the
//! single-processor serialization is the borrow checker's `&mut`.

use vstd::arithmetic::div_mod::lemma_fundamental_div_mod;
use vstd::arithmetic::div_mod::lemma_fundamental_div_mod_converse;
use vstd::arithmetic::mul::lemma_mul_inequality;
use vstd::prelude::*;

use crate::manager::entry_le;
use crate::manager::ReadyEntry;
use crate::manager::TaskManager;
use crate::mm::MemorySet;
use crate::processor::Processor;
use crate::task::TaskControlBlock;
use crate::task::TaskStatus;
use crate::MAX_TIME_US;
use crate::MAX_VA;
use crate::MAX_VPN;
use crate::PAGE_SIZE;
use crate::PID_LIMIT;

verus! {

/// Whether some task of `s` has pid `pid`.
pub open spec fn tseq_has(s: Seq<TaskControlBlock>, pid: int) -> bool {
    exists|i: int| 0 <= i < s.len() && s[i].pid == pid
}

/// Index of the task of `s` with pid `pid` (well defined under `tseq_unique`).
pub open spec fn tseq_idx(s: Seq<TaskControlBlock>, pid: int) -> int {
    choose|i: int| 0 <= i < s.len() && s[i].pid == pid
}

pub open spec fn tseq_at(s: Seq<TaskControlBlock>, pid: int) -> TaskControlBlock {
    s[tseq_idx(s, pid)]
}

/// No two tasks of `s` share a pid.
pub open spec fn tseq_unique(s: Seq<TaskControlBlock>) -> bool {
    forall|i: int, j: int| 0 <= i < j < s.len() ==> s[i].pid != s[j].pid
}

/// Replacing the task at `i` by `t` (same pid) through `swap_remove(i)`
/// followed by `push(t)` keeps every other task.
pub proof fn lemma_task_replace(s: Seq<TaskControlBlock>, i: int, t: TaskControlBlock)
    requires
        tseq_unique(s),
        0 <= i < s.len(),
        t.pid == s[i].pid,
    ensures
        ({
            let s2 = s.update(i, s.last()).drop_last().push(t);
            &&& s2.len() == s.len()
            &&& tseq_unique(s2)
            &&& tseq_has(s2, t.pid as int)
            &&& tseq_at(s2, t.pid as int) == t
            &&& forall|q: int| q != t.pid ==> (tseq_has(s2, q) <==> tseq_has(s, q))
            &&& forall|q: int| q != t.pid && tseq_has(s, q) ==> tseq_at(s2, q) == tseq_at(s, q)
            &&& forall|j: int|
                0 <= j < s2.len() ==> (#[trigger] s2[j] == t || (exists|k: int|
                    0 <= k < s.len() && k != i && s2[j] == s[k]))
        }),
{
    let s2 = s.update(i, s.last()).drop_last().push(t);
    let n = s.len();
    assert forall|j: int| 0 <= j < s2.len() implies (#[trigger] s2[j] == t || (exists|k: int|
        0 <= k < s.len() && k != i && s2[j] == s[k])) by {
        if j == n - 1 {
            assert(s2[j] == t);
        } else if j == i {
            assert(s2[j] == s[n - 1] && i != n - 1);
        } else {
            assert(s2[j] == s[j]);
        }
    }
    assert(tseq_unique(s2)) by {
        assert forall|a: int, b: int| 0 <= a < b < s2.len() implies s2[a].pid != s2[b].pid by {
            if b == s2.len() - 1 {
                if a == i {
                    assert(s2[a] == s[n - 1] && i != n - 1);
                } else {
                    assert(s2[a] == s[a]);
                }
            } else {
                if a == i {
                    assert(s2[a] == s[n - 1] && s2[b] == s[b] && b != n - 1);
                } else if b == i {
                    assert(s2[b] == s[n - 1] && s2[a] == s[a] && a != n - 1);
                } else {
                    assert(s2[a] == s[a] && s2[b] == s[b]);
                }
            }
        }
    }
    assert(s2[s2.len() - 1] == t);
    assert(tseq_has(s2, t.pid as int));
    let fi = tseq_idx(s2, t.pid as int);
    assert(0 <= fi < s2.len() && s2[fi].pid == t.pid);
    assert(fi == s2.len() - 1);
    assert forall|q: int| q != t.pid && tseq_has(s, q) implies tseq_has(s2, q) && tseq_at(s2, q)
        == tseq_at(s, q) by {
        let k = tseq_idx(s, q);
        assert(0 <= k < n && s[k].pid == q);
        assert(k != i);
        let j: int = if k == n - 1 {
            i
        } else {
            k
        };
        assert(s2[j] == s[k]);
        assert(tseq_has(s2, q));
        let j2 = tseq_idx(s2, q);
        assert(0 <= j2 < s2.len() && s2[j2].pid == q);
        assert(j2 == j);
    }
    assert forall|q: int| q != t.pid && tseq_has(s2, q) implies tseq_has(s, q) by {
        let j = tseq_idx(s2, q);
        assert(0 <= j < s2.len() && s2[j].pid == q);
        assert(s2[j] != t);
        let k = choose|k: int| 0 <= k < s.len() && k != i && s2[j] == s[k];
        assert(s[k].pid == q);
    }
}

/// Removing the task at `i` through `swap_remove(i)` drops exactly its
/// pid and keeps every other task.
pub proof fn lemma_task_remove(s: Seq<TaskControlBlock>, i: int)
    requires
        tseq_unique(s),
        0 <= i < s.len(),
    ensures
        ({
            let s2 = s.update(i, s.last()).drop_last();
            &&& s2.len() == s.len() - 1
            &&& tseq_unique(s2)
            &&& !tseq_has(s2, s[i].pid as int)
            &&& forall|q: int| q != s[i].pid ==> (tseq_has(s2, q) <==> tseq_has(s, q))
            &&& forall|q: int|
                q != s[i].pid && tseq_has(s, q) ==> tseq_at(s2, q) == tseq_at(s, q)
        }),
{
    let s2 = s.update(i, s.last()).drop_last();
    let n = s.len();
    assert forall|j: int| 0 <= j < s2.len() implies (exists|k: int|
        0 <= k < s.len() && k != i && #[trigger] s2[j] == s[k]) by {
        if j == i {
            assert(s2[j] == s[n - 1] && i != n - 1);
        } else {
            assert(s2[j] == s[j]);
        }
    }
    assert(tseq_unique(s2)) by {
        assert forall|a: int, b: int| 0 <= a < b < s2.len() implies s2[a].pid != s2[b].pid by {
            if a == i {
                assert(s2[a] == s[n - 1] && s2[b] == s[b] && b != n - 1);
            } else if b == i {
                assert(s2[b] == s[n - 1] && s2[a] == s[a] && a != n - 1);
            } else {
                assert(s2[a] == s[a] && s2[b] == s[b]);
            }
        }
    }
    assert(!tseq_has(s2, s[i].pid as int)) by {
        if tseq_has(s2, s[i].pid as int) {
            let j = tseq_idx(s2, s[i].pid as int);
            assert(0 <= j < s2.len() && s2[j].pid == s[i].pid);
            let k = choose|k: int| 0 <= k < s.len() && k != i && s2[j] == s[k];
            assert(s[k].pid == s[i].pid);
            assert(false);
        }
    }
    assert forall|q: int| q != s[i].pid && tseq_has(s, q) implies tseq_has(s2, q) && tseq_at(
        s2,
        q,
    ) == tseq_at(s, q) by {
        let k = tseq_idx(s, q);
        assert(0 <= k < n && s[k].pid == q);
        assert(k != i);
        let j: int = if k == n - 1 {
            i
        } else {
            k
        };
        assert(s2[j] == s[k]);
        assert(tseq_has(s2, q));
        let j2 = tseq_idx(s2, q);
        assert(0 <= j2 < s2.len() && s2[j2].pid == q);
        assert(j2 == j);
    }
    assert forall|q: int| q != s[i].pid && tseq_has(s2, q) implies tseq_has(s, q) by {
        let j = tseq_idx(s2, q);
        assert(0 <= j < s2.len() && s2[j].pid == q);
        let k = choose|k: int| 0 <= k < s.len() && k != i && s2[j] == s[k];
        assert(s[k].pid == q);
    }
}

/// Appending a task with a fresh pid keeps every existing task.
pub proof fn lemma_task_push(s: Seq<TaskControlBlock>, t: TaskControlBlock)
    requires
        tseq_unique(s),
        !tseq_has(s, t.pid as int),
    ensures
        ({
            let s2 = s.push(t);
            &&& tseq_unique(s2)
            &&& tseq_has(s2, t.pid as int)
            &&& tseq_at(s2, t.pid as int) == t
            &&& forall|q: int| q != t.pid ==> (tseq_has(s2, q) <==> tseq_has(s, q))
            &&& forall|q: int| q != t.pid && tseq_has(s, q) ==> tseq_at(s2, q) == tseq_at(s, q)
        }),
{
    let s2 = s.push(t);
    let n = s.len();
    assert(tseq_unique(s2)) by {
        assert forall|a: int, b: int| 0 <= a < b < s2.len() implies s2[a].pid != s2[b].pid by {
            if b == n {
                assert(s2[a] == s[a] && s2[b] == t);
                if s[a].pid == t.pid {
                    assert(tseq_has(s, t.pid as int));
                }
            } else {
                assert(s2[a] == s[a] && s2[b] == s[b]);
            }
        }
    }
    assert(s2[n as int] == t);
    assert(tseq_has(s2, t.pid as int));
    let fi = tseq_idx(s2, t.pid as int);
    assert(0 <= fi < s2.len() && s2[fi].pid == t.pid);
    assert(fi == n) by {
        if fi < n {
            assert(s2[fi] == s[fi]);
            assert(tseq_has(s, t.pid as int));
        }
    }
    assert forall|q: int| q != t.pid && tseq_has(s, q) implies tseq_has(s2, q) && tseq_at(s2, q)
        == tseq_at(s, q) by {
        let k = tseq_idx(s, q);
        assert(0 <= k < n && s[k].pid == q);
        assert(s2[k] == s[k]);
        assert(tseq_has(s2, q));
        let j2 = tseq_idx(s2, q);
        assert(0 <= j2 < s2.len() && s2[j2].pid == q);
        assert(j2 != n);
        assert(s2[j2] == s[j2]);
        assert(j2 == k);
    }
    assert forall|q: int| q != t.pid && tseq_has(s2, q) implies tseq_has(s, q) by {
        let j = tseq_idx(s2, q);
        assert(0 <= j < s2.len() && s2[j].pid == q);
        assert(j != n);
        assert(s2[j] == s[j]);
    }
}

/// One loadable segment of an application image: already-parsed data the
/// external ELF loader hands over, page aligned and page sized.
pub struct AppSegment {
    pub start_vpn: usize,
    pub page_count: usize,
    pub perm: u8,
    pub data: Vec<u8>,
}

impl AppSegment {
    pub open spec fn wf(self) -> bool {
        &&& self.start_vpn + self.page_count <= MAX_VPN
        &&& self.data@.len() == self.page_count * PAGE_SIZE
    }

    pub open spec fn contains(self, vpn: int) -> bool {
        self.start_vpn <= vpn < self.start_vpn + self.page_count
    }
}

/// Two segments covering no common page.
pub open spec fn segs_disjoint(a: AppSegment, b: AppSegment) -> bool {
    a.start_vpn + a.page_count <= b.start_vpn || b.start_vpn + b.page_count <= a.start_vpn
}

/// Loadable binary data for one application, as the external image
/// loader resolves it.
pub struct AppImage {
    pub entry: usize,
    pub segments: Vec<AppSegment>,
}

/// Highest end address of the first `n` segments, page aligned; the heap
/// of a task loaded from the image starts there.
pub open spec fn segs_end(s: Seq<AppSegment>, n: int) -> int
    decreases n,
{
    if n <= 0 {
        0
    } else {
        let prev = segs_end(s, n - 1);
        let e = (s[n - 1].start_vpn + s[n - 1].page_count) * PAGE_SIZE;
        if e > prev {
            e
        } else {
            prev
        }
    }
}

impl AppImage {
    pub open spec fn wf(self) -> bool {
        &&& forall|i: int| 0 <= i < self.segments@.len() ==> (#[trigger] self.segments@[i]).wf()
        &&& forall|i: int, j: int|
            0 <= i < j < self.segments@.len() ==> segs_disjoint(
                self.segments@[i],
                self.segments@[j],
            )
    }

    /// Whether the image maps virtual page `vpn`.
    pub open spec fn maps(self, vpn: int) -> bool {
        exists|i: int| 0 <= i < self.segments@.len() && (#[trigger] self.segments@[i]).contains(
            vpn,
        )
    }

    /// The segment mapping `vpn` (well defined under `wf`).
    pub open spec fn seg_of(self, vpn: int) -> int {
        choose|i: int| 0 <= i < self.segments@.len() && (#[trigger] self.segments@[i]).contains(
            vpn,
        )
    }

    /// Permission bits of the segment mapping `vpn`.
    pub open spec fn perm_of(self, vpn: int) -> u8 {
        self.segments@[self.seg_of(vpn)].perm
    }

    /// One past the highest address any segment covers.
    pub open spec fn end_va(self) -> int {
        segs_end(self.segments@, self.segments@.len() as int)
    }
}

/// A registered application: its name and its image.
pub struct AppEntry {
    pub name: Vec<u8>,
    pub image: AppImage,
}

/// The end address of well-formed segments is page aligned and bounded.
proof fn lemma_segs_end_props(s: Seq<AppSegment>, n: int)
    requires
        0 <= n <= s.len(),
        forall|i: int| 0 <= i < s.len() ==> (#[trigger] s[i]).wf(),
    ensures
        segs_end(s, n) % (PAGE_SIZE as int) == 0,
        0 <= segs_end(s, n) <= MAX_VA,
    decreases n,
{
    if n > 0 {
        lemma_segs_end_props(s, n - 1);
        let e = (s[n - 1].start_vpn + s[n - 1].page_count) * PAGE_SIZE;
        assert(s[n - 1].wf());
        lemma_mul_inequality(
            s[n - 1].start_vpn + s[n - 1].page_count,
            MAX_VPN as int,
            PAGE_SIZE as int,
        );
        assert((MAX_VPN as int) * (PAGE_SIZE as int) == MAX_VA as int);
        assert(e % (PAGE_SIZE as int) == 0) by {
            let q = s[n - 1].start_vpn + s[n - 1].page_count;
            lemma_fundamental_div_mod_converse(q * (PAGE_SIZE as int), PAGE_SIZE as int, q, 0);
        }
        assert(e >= 0) by {
            vstd::arithmetic::mul::lemma_mul_nonnegative(
                s[n - 1].start_vpn + s[n - 1].page_count,
                PAGE_SIZE as int,
            );
        }
    }
}

/// Splitting a byte offset from a page base: `start * PAGE_SIZE + k` lies
/// on page `start + k / PAGE_SIZE` at offset `k % PAGE_SIZE`.
pub proof fn lemma_page_addr(start: int, k: int)
    requires
        start >= 0,
        k >= 0,
    ensures
        (start * PAGE_SIZE + k) / (PAGE_SIZE as int) == start + k / (PAGE_SIZE as int),
        (start * PAGE_SIZE + k) % (PAGE_SIZE as int) == k % (PAGE_SIZE as int),
{
    lemma_fundamental_div_mod(k, PAGE_SIZE as int);
    assert(start * PAGE_SIZE + k == (start + k / (PAGE_SIZE as int)) * (PAGE_SIZE as int) + k % (
    PAGE_SIZE as int)) by (nonlinear_arith)
        requires
            k == (PAGE_SIZE as int) * (k / (PAGE_SIZE as int)) + k % (PAGE_SIZE as int),
    ;
    lemma_fundamental_div_mod_converse(
        start * PAGE_SIZE + k,
        PAGE_SIZE as int,
        start + k / (PAGE_SIZE as int),
        k % (PAGE_SIZE as int),
    );
}

/// A byte offset within `count` pages lies within the first `count` pages.
pub proof fn lemma_offset_page_bound(k: int, count: int)
    requires
        0 <= k < count * PAGE_SIZE,
    ensures
        0 <= k / (PAGE_SIZE as int) < count,
{
    assert(k / (PAGE_SIZE as int) >= 0) by {
        vstd::arithmetic::div_mod::lemma_div_pos_is_pos(k, PAGE_SIZE as int);
    }
    if k / (PAGE_SIZE as int) >= count {
        lemma_fundamental_div_mod(k, PAGE_SIZE as int);
        lemma_mul_inequality(count, k / (PAGE_SIZE as int), PAGE_SIZE as int);
        assert(k >= (k / (PAGE_SIZE as int)) * (PAGE_SIZE as int)) by {
            vstd::arithmetic::div_mod::lemma_remainder_lower(k, PAGE_SIZE as int);
        }
        assert(false);
    }
}

/// Saturating advance of a stride accumulator (the explicit overflow
/// strategy: far beyond any realistic dispatch count, the stride pins at
/// the maximum instead of wrapping).
pub open spec fn stride_after(stride: u64, priority: usize) -> int {
    let inc = (crate::BIG_STRIDE as int) / (priority as int);
    if stride + inc <= u64::MAX {
        stride + inc
    } else {
        u64::MAX as int
    }
}

/// The kernel's whole process-management state.
pub struct Kernel {
    pub tasks: Vec<TaskControlBlock>,
    pub manager: TaskManager,
    pub processor: Processor,
    pub next_pid: usize,
    pub init_pid: Option<usize>,
    pub apps: Vec<AppEntry>,
    pub now_us: usize,
}

impl Kernel {
    /// Whether a task with pid `pid` is alive.
    pub open spec fn has_task(self, pid: int) -> bool {
        tseq_has(self.tasks@, pid)
    }

    /// The task with pid `pid` (well defined under `wf`).
    pub open spec fn task_of(self, pid: int) -> TaskControlBlock {
        tseq_at(self.tasks@, pid)
    }

    /// Whether a task is currently assigned to the processor.
    pub open spec fn has_current(self) -> bool {
        self.processor.current is Some
    }

    /// Pid of the task currently assigned to the processor.
    pub open spec fn cur_pid(self) -> int {
        self.processor.current.unwrap() as int
    }

    /// The task currently assigned to the processor.
    pub open spec fn cur_task(self) -> TaskControlBlock {
        self.task_of(self.cur_pid())
    }

    pub open spec fn tasks_wf(self) -> bool {
        &&& tseq_unique(self.tasks@)
        &&& forall|i: int| 0 <= i < self.tasks@.len() ==> (#[trigger] self.tasks@[i]).wf()
        &&& forall|i: int|
            0 <= i < self.tasks@.len() ==> (#[trigger] self.tasks@[i].pid) < self.next_pid
        &&& forall|i: int|
            0 <= i < self.tasks@.len() ==> (#[trigger] self.tasks@[i].create_time) <= self.now_us
        &&& self.next_pid <= PID_LIMIT
    }

    /// Exactly the task assigned to the processor is Running.
    pub open spec fn running_wf(self) -> bool {
        &&& (self.processor.current matches Some(p) ==> self.has_task(p as int))
        &&& forall|i: int|
            0 <= i < self.tasks@.len() ==> ((#[trigger] self.tasks@[i].status) is Running
                <==> self.processor.current == Some(self.tasks@[i].pid))
    }

    /// Every ready-queue entry names a live Ready task and mirrors its
    /// stride and priority; no task is queued twice; the current task is
    /// not queued.
    pub open spec fn ready_wf(self) -> bool {
        &&& forall|k: int|
            0 <= k < self.manager.ready@.len() ==> {
                let e = #[trigger] self.manager.ready@[k];
                &&& self.has_task(e.pid as int)
                &&& self.task_of(e.pid as int).status is Ready
                &&& e.stride == self.task_of(e.pid as int).stride
                &&& e.priority == self.task_of(e.pid as int).priority
            }
        &&& forall|k: int, l: int|
            0 <= k < l < self.manager.ready@.len() ==> self.manager.ready@[k].pid
                != self.manager.ready@[l].pid
    }

    /// Parent and child links agree and form a forest: a pid stands in a
    /// parent's children exactly when that task's parent field names the
    /// parent, and a task reaped or still unborn stands in none.
    pub open spec fn tree_wf(self) -> bool {
        let s = self.tasks@;
        &&& forall|i: int, c: usize|
            0 <= i < s.len() && (#[trigger] s[i].children@.contains(c)) ==> tseq_has(s, c as int)
        &&& forall|i: int, j: int|
            0 <= i < s.len() && 0 <= j < s.len() && (#[trigger] s[i].children@.contains(s[j].pid))
                ==> s[j].parent == Some(s[i].pid)
        &&& forall|i: int, j: int|
            #![trigger s[i].pid, s[j].parent]
            0 <= i < s.len() && 0 <= j < s.len() && s[j].parent == Some(s[i].pid)
                ==> s[i].children@.contains(s[j].pid)
        &&& forall|j: int|
            0 <= j < s.len() && (#[trigger] s[j].parent) is Some ==> tseq_has(
                s,
                s[j].parent.unwrap() as int,
            )
        &&& forall|i: int|
            0 <= i < s.len() && (#[trigger] s[i].status) is Zombie && Some(s[i].pid)
                != self.init_pid ==> s[i].children@.len() == 0
    }

    /// The initial task exists, has no parent, and carries the smallest
    /// pid of all live tasks; it is set as soon as any task exists.
    pub open spec fn init_wf(self) -> bool {
        &&& (self.init_pid matches Some(p) ==> self.has_task(p as int) && self.task_of(
            p as int,
        ).parent is None && forall|i: int|
            0 <= i < self.tasks@.len() ==> p <= (#[trigger] self.tasks@[i].pid))
        &&& (self.tasks@.len() > 0 ==> self.init_pid is Some)
    }

    pub open spec fn apps_wf(self) -> bool {
        &&& forall|i: int| 0 <= i < self.apps@.len() ==> (#[trigger] self.apps@[i]).image.wf()
        &&& forall|i: int, j: int|
            0 <= i < j < self.apps@.len() ==> self.apps@[i].name@ != self.apps@[j].name@
    }

    /// The kernel invariant every operation preserves.
    pub open spec fn wf(self) -> bool {
        &&& self.tasks_wf()
        &&& self.running_wf()
        &&& self.ready_wf()
        &&& self.tree_wf()
        &&& self.init_wf()
        &&& self.apps_wf()
    }

    /// Whether an application of that name is registered.
    pub open spec fn has_app(self, name: Seq<u8>) -> bool {
        exists|i: int| 0 <= i < self.apps@.len() && (#[trigger] self.apps@[i]).name@ == name
    }

    /// Index of the registered application of that name.
    pub open spec fn app_idx(self, name: Seq<u8>) -> int {
        choose|i: int| 0 <= i < self.apps@.len() && (#[trigger] self.apps@[i]).name@ == name
    }

    /// The registered image of that name.
    pub open spec fn app_image(self, name: Seq<u8>) -> AppImage {
        self.apps@[self.app_idx(name)].image
    }

    /// All live tasks other than `pid` agree between the two states.
    pub open spec fn same_tasks_except(self, other: Kernel, pid: int) -> bool {
        &&& forall|q: int| q != pid ==> (self.has_task(q) <==> other.has_task(q))
        &&& forall|q: int| q != pid && other.has_task(q) ==> self.task_of(q) == other.task_of(q)
    }

    /// The pid allocator, the initial task, the registered applications
    /// and the clock agree between the two states.
    pub open spec fn same_admin(self, other: Kernel) -> bool {
        &&& self.next_pid == other.next_pid
        &&& self.init_pid == other.init_pid
        &&& self.apps@ == other.apps@
        &&& self.now_us == other.now_us
    }

    /// A fresh kernel: no tasks, no applications, clock at zero.
    pub fn new() -> (r: Kernel)
        ensures
            r.wf(),
            r.tasks@.len() == 0,
            r.manager.ready@.len() == 0,
            !r.has_current(),
            r.next_pid == 0,
            r.init_pid is None,
            r.apps@.len() == 0,
            r.now_us == 0,
    {
        Kernel {
            tasks: Vec::new(),
            manager: TaskManager::new(),
            processor: Processor::new(),
            next_pid: 0,
            init_pid: None,
            apps: Vec::new(),
            now_us: 0,
        }
    }

    /// Advance the monotonic clock by `delta` microseconds, as the
    /// external timer driver does on each tick.
    pub fn advance_time(&mut self, delta: usize)
        requires
            old(self).wf(),
            old(self).now_us + delta <= MAX_TIME_US,
        ensures
            final(self).wf(),
            final(self).now_us == old(self).now_us + delta,
            final(self).tasks@ == old(self).tasks@,
            final(self).manager.ready@ == old(self).manager.ready@,
            final(self).processor == old(self).processor,
            final(self).next_pid == old(self).next_pid,
            final(self).init_pid == old(self).init_pid,
            final(self).apps@ == old(self).apps@,
    {
        self.now_us = self.now_us + delta;
    }

    /// Index in `tasks` of the task with pid `pid`, if it is alive.
    pub(crate) fn find_task_index(&self, pid: usize) -> (r: Option<usize>)
        requires
            self.tasks_wf(),
        ensures
            match r {
                Some(i) => {
                    &&& i < self.tasks@.len()
                    &&& self.tasks@[i as int].pid == pid
                    &&& self.has_task(pid as int)
                    &&& tseq_idx(self.tasks@, pid as int) == i
                },
                None => !self.has_task(pid as int),
            },
    {
        let n = self.tasks.len();
        let mut i: usize = 0;
        while i < n
            invariant
                self.tasks_wf(),
                n == self.tasks@.len(),
                i <= n,
                forall|j: int| 0 <= j < i ==> self.tasks@[j].pid != pid,
            decreases n - i,
        {
            if self.tasks[i].pid == pid {
                proof {
                    assert(self.has_task(pid as int));
                    let k = tseq_idx(self.tasks@, pid as int);
                    assert(0 <= k < self.tasks@.len() && self.tasks@[k].pid == pid);
                    assert(k == i);
                }
                return Some(i);
            }
            i += 1;
        }
        None
    }

    /// Index of the registered application named `name`, if any.
    pub(crate) fn find_app(&self, name: &Vec<u8>) -> (r: Option<usize>)
        requires
            self.apps_wf(),
        ensures
            match r {
                Some(i) => {
                    &&& i < self.apps@.len()
                    &&& self.apps@[i as int].name@ == name@
                    &&& self.has_app(name@)
                    &&& self.app_idx(name@) == i
                },
                None => !self.has_app(name@),
            },
    {
        let n = self.apps.len();
        let mut i: usize = 0;
        while i < n
            invariant
                self.apps_wf(),
                n == self.apps@.len(),
                i <= n,
                forall|j: int| 0 <= j < i ==> self.apps@[j].name@ != name@,
            decreases n - i,
        {
            if bytes_eq(&self.apps[i].name, name) {
                proof {
                    assert(self.has_app(name@));
                    let k = self.app_idx(name@);
                    assert(0 <= k < self.apps@.len() && self.apps@[k].name@ == name@);
                    assert(k == i);
                }
                return Some(i);
            }
            i += 1;
        }
        None
    }

    /// Register an application image under a name, as the external image
    /// store is populated; refused when the image is ill-formed or the
    /// name is taken.
    pub fn register_app(&mut self, name: Vec<u8>, image: AppImage) -> (r: bool)
        requires
            old(self).wf(),
        ensures
            final(self).wf(),
            r == (image.wf() && !old(self).has_app(name@)),
            r ==> final(self).apps@ == old(self).apps@.push(
                (AppEntry { name: name, image: image }),
            ) && final(self).has_app(name@) && final(self).app_image(name@) == image,
            !r ==> final(self).apps@ == old(self).apps@,
            final(self).tasks@ == old(self).tasks@,
            final(self).manager.ready@ == old(self).manager.ready@,
            final(self).processor == old(self).processor,
            final(self).next_pid == old(self).next_pid,
            final(self).init_pid == old(self).init_pid,
            final(self).now_us == old(self).now_us,
    {
        if !is_wf_image(&image) {
            return false;
        }
        if self.find_app(&name).is_some() {
            return false;
        }
        let ghost pre = *self;
        let ghost nameg = name@;
        let ghost imageg = image;
        let entry = AppEntry { name, image };
        let ghost entryg = entry;
        self.apps.push(entry);
        proof {
            let n = pre.apps@.len() as int;
            assert(self.apps@ == pre.apps@.push(entryg));
            assert(self.apps@[n] == entryg);
            assert(entryg.name@ == nameg);
            assert forall|i: int, j: int| 0 <= i < j < self.apps@.len() implies self.apps@[i].name@
                != self.apps@[j].name@ by {
                if j == n {
                    assert(self.apps@[i] == pre.apps@[i]);
                    if pre.apps@[i].name@ == nameg {
                        assert(pre.has_app(nameg));
                    }
                } else {
                    assert(self.apps@[i] == pre.apps@[i] && self.apps@[j] == pre.apps@[j]);
                }
            }
            assert forall|i: int| 0 <= i < self.apps@.len() implies (
            #[trigger] self.apps@[i]).image.wf() by {
                if i < n {
                    assert(self.apps@[i] == pre.apps@[i]);
                } else {
                    assert(self.apps@[i] == entryg);
                }
            }
            assert(self.has_app(nameg));
            let k = self.app_idx(nameg);
            assert(0 <= k < self.apps@.len() && self.apps@[k].name@ == nameg);
            assert(k == n) by {
                if k < n {
                    assert(self.apps@[k] == pre.apps@[k]);
                    assert(pre.has_app(nameg));
                }
            }
            assert(self.app_image(nameg) == imageg);
        }
        true
    }
}

/// Whether two byte vectors hold the same bytes.
pub fn bytes_eq(a: &Vec<u8>, b: &Vec<u8>) -> (r: bool)
    ensures
        r == (a@ == b@),
{
    if a.len() != b.len() {
        proof {
            assert(a@ != b@);
        }
        return false;
    }
    let n = a.len();
    let mut i: usize = 0;
    while i < n
        invariant
            n == a@.len() == b@.len(),
            i <= n,
            forall|j: int| 0 <= j < i ==> a@[j] == b@[j],
        decreases n - i,
    {
        if a[i] != b[i] {
            proof {
                assert(a@ != b@);
            }
            return false;
        }
        i += 1;
    }
    proof {
        assert(a@ =~= b@);
    }
    true
}

/// Runtime check of the well-formedness `AppImage::wf` states.
pub fn is_wf_image(image: &AppImage) -> (r: bool)
    ensures
        r == image.wf(),
{
    let n = image.segments.len();
    let mut i: usize = 0;
    while i < n
        invariant
            n == image.segments@.len(),
            i <= n,
            forall|j: int| 0 <= j < i ==> (#[trigger] image.segments@[j]).wf(),
        decreases n - i,
    {
        let seg = &image.segments[i];
        if seg.start_vpn > MAX_VPN || seg.page_count > MAX_VPN - seg.start_vpn {
            return false;
        }
        proof {
            lemma_mul_inequality(seg.page_count as int, MAX_VPN as int, PAGE_SIZE as int);
        }
        if seg.data.len() != seg.page_count * PAGE_SIZE {
            return false;
        }
        i += 1;
    }
    let mut i: usize = 0;
    while i < n
        invariant
            n == image.segments@.len(),
            i <= n,
            forall|j: int| 0 <= j < n ==> (#[trigger] image.segments@[j]).wf(),
            forall|a: int, b: int|
                0 <= a < b < n && a < i ==> segs_disjoint(image.segments@[a], image.segments@[b]),
        decreases n - i,
    {
        let mut j: usize = i + 1;
        while j < n
            invariant
                n == image.segments@.len(),
                i < n,
                i < j <= n,
                forall|j2: int| 0 <= j2 < n ==> (#[trigger] image.segments@[j2]).wf(),
                forall|j2: int|
                    (i as int) < j2 < (j as int) ==> segs_disjoint(
                        image.segments@[i as int],
                        #[trigger] image.segments@[j2],
                    ),
            decreases n - j,
        {
            let a = &image.segments[i];
            let b = &image.segments[j];
            if !(a.start_vpn + a.page_count <= b.start_vpn || b.start_vpn + b.page_count
                <= a.start_vpn) {
                proof {
                    if image.wf() {
                        assert(segs_disjoint(image.segments@[i as int], image.segments@[j as int]));
                        assert(false);
                    }
                }
                return false;
            }
            j += 1;
        }
        i += 1;
    }
    true
}

/// One past the highest address any segment of the image covers.
pub fn image_end(image: &AppImage) -> (r: usize)
    requires
        image.wf(),
    ensures
        r == image.end_va(),
        r <= MAX_VA,
        r % PAGE_SIZE == 0,
{
    let n = image.segments.len();
    let mut end: usize = 0;
    let mut i: usize = 0;
    proof {
        lemma_segs_end_props(image.segments@, 0);
    }
    while i < n
        invariant
            image.wf(),
            n == image.segments@.len(),
            i <= n,
            end == segs_end(image.segments@, i as int),
            end <= MAX_VA,
            end % PAGE_SIZE == 0,
        decreases n - i,
    {
        let seg = &image.segments[i];
        proof {
            assert(image.segments@[i as int].wf());
            lemma_mul_inequality(
                seg.start_vpn + seg.page_count,
                MAX_VPN as int,
                PAGE_SIZE as int,
            );
            assert((MAX_VPN as int) * (PAGE_SIZE as int) == MAX_VA as int);
            vstd::arithmetic::mul::lemma_mul_nonnegative(
                seg.start_vpn + seg.page_count,
                PAGE_SIZE as int,
            );
            lemma_segs_end_props(image.segments@, i as int + 1);
        }
        let e = (seg.start_vpn + seg.page_count) * PAGE_SIZE;
        if e > end {
            end = e;
        }
        i += 1;
    }
    end
}


/// An address space holding exactly what an application image describes:
/// each segment's pages with its permission bits and contents, and the
/// heap beginning at the image's end.
pub open spec fn loaded_from(ms: MemorySet, image: AppImage) -> bool {
    &&& forall|v: int| ms.is_mapped(v) <==> image.maps(v)
    &&& forall|v: int| image.maps(v) ==> ms.perm_at(v) == image.perm_of(v)
    &&& forall|i: int, k: int|
        0 <= i < image.segments@.len() && 0 <= k < image.segments@[i].data@.len() ==> ms.byte_at(
            image.segments@[i].start_vpn * PAGE_SIZE + k,
        ) == image.segments@[i].data@[k]
    &&& ms.heap_bottom == image.end_va()
    &&& ms.program_brk == image.end_va()
}

/// Build a fresh address space from an application's loadable segment
/// data: every segment mapped with its permission bits and its contents,
/// zero elsewhere, and the heap beginning at the image's end.
pub fn build_memory_set(image: &AppImage) -> (r: MemorySet)
    requires
        image.wf(),
    ensures
        r.wf(),
        loaded_from(r, *image),
{
    let mut ms = MemorySet::new();
    let n = image.segments.len();
    let mut i: usize = 0;
    while i < n
        invariant
            image.wf(),
            n == image.segments@.len(),
            i <= n,
            ms.wf(),
            ms.heap_bottom == 0,
            ms.program_brk == 0,
            forall|v: int|
                ms.is_mapped(v) <==> exists|j: int|
                    0 <= j < i && (#[trigger] image.segments@[j]).contains(v),
            forall|j: int, v: int|
                0 <= j < i && #[trigger] image.segments@[j].contains(v) ==> ms.perm_at(v)
                    == image.segments@[j].perm,
            forall|j: int, k: int|
                0 <= j < i && 0 <= k < image.segments@[j].data@.len() ==> ms.byte_at(
                    #[trigger] (image.segments@[j].start_vpn * PAGE_SIZE + k),
                ) == image.segments@[j].data@[k],
        decreases n - i,
    {
        let ghost pre = ms;
        let seg = &image.segments[i];
        let start = seg.start_vpn;
        let count = seg.page_count;
        proof {
            assert(image.segments@[i as int].wf());
            assert forall|v: int| start as int <= v < start as int + count as int implies
                !ms.is_mapped(v) by {
                if ms.is_mapped(v) {
                    let j = choose|j: int|
                        0 <= j < i && (#[trigger] image.segments@[j]).contains(v);
                    assert(segs_disjoint(image.segments@[j], image.segments@[i as int]));
                    assert(false);
                }
            }
        }
        ms.insert_range(start, start + count, seg.perm);
        let ghost mid = ms;
        proof {
            lemma_mul_inequality(start as int, MAX_VPN as int, PAGE_SIZE as int);
            lemma_mul_inequality(start as int + count as int, MAX_VPN as int, PAGE_SIZE as int);
            assert((MAX_VPN as int) * (PAGE_SIZE as int) == MAX_VA as int);
            vstd::arithmetic::mul::lemma_mul_is_distributive_add_other_way(
                PAGE_SIZE as int,
                start as int,
                count as int,
            );
            assert((start as int + count as int) * (PAGE_SIZE as int) == (start as int) * (
            PAGE_SIZE as int) + (count as int) * (PAGE_SIZE as int));
            assert(seg.data@.len() == (count as int) * (PAGE_SIZE as int));
            assert forall|a: int|
                (start as int) * (PAGE_SIZE as int) <= a < (start as int) * (PAGE_SIZE as int)
                    + seg.data@.len() implies ms.is_mapped(
                #[trigger] (a / (PAGE_SIZE as int)),
            ) by {
                let k = a - (start as int) * (PAGE_SIZE as int);
                lemma_page_addr(start as int, k);
                lemma_offset_page_bound(k, count as int);
                assert(start as int <= a / (PAGE_SIZE as int) < start as int + count as int);
            }
        }
        ms.write_bytes(start * PAGE_SIZE, &seg.data);
        proof {
            let base = (start as int) * (PAGE_SIZE as int);
            let len = seg.data@.len() as int;
            assert forall|v: int| ms.is_mapped(v) <==> exists|j: int|
                0 <= j < i as int + 1 && (#[trigger] image.segments@[j]).contains(v) by {
                assert(ms.is_mapped(v) <==> mid.is_mapped(v));
                if ms.is_mapped(v) {
                    if start as int <= v < start as int + count as int {
                        assert(image.segments@[i as int].contains(v));
                    } else {
                        assert(pre.is_mapped(v));
                        let j = choose|j: int|
                            0 <= j < i && (#[trigger] image.segments@[j]).contains(v);
                        assert(image.segments@[j].contains(v));
                    }
                }
                if exists|j: int| 0 <= j < i as int + 1 && (#[trigger] image.segments@[j]).contains(
                    v,
                ) {
                    let j = choose|j: int|
                        0 <= j < i as int + 1 && (#[trigger] image.segments@[j]).contains(v);
                    if j == i as int {
                        assert(mid.is_mapped(v));
                    } else {
                        assert(pre.is_mapped(v));
                        assert(mid.is_mapped(v));
                    }
                }
            }
            assert forall|j: int, v: int|
                0 <= j < i as int + 1 && #[trigger] image.segments@[j].contains(v) implies
                ms.perm_at(v) == image.segments@[j].perm by {
                if j == i as int {
                    assert(mid.perm_at(v) == seg.perm);
                    assert(ms.perm_at(v) == mid.perm_at(v));
                } else {
                    assert(segs_disjoint(image.segments@[j], image.segments@[i as int]));
                    assert(!(start as int <= v < start as int + count as int));
                    assert(pre.is_mapped(v));
                    assert(mid.frame_at(v) == pre.frame_at(v));
                    assert(ms.perm_at(v) == mid.perm_at(v));
                }
            }
            assert forall|j: int, k: int|
                0 <= j < i as int + 1 && 0 <= k < image.segments@[j].data@.len() implies ms.byte_at(
                #[trigger] (image.segments@[j].start_vpn * PAGE_SIZE + k),
            ) == image.segments@[j].data@[k] by {
                let sj = image.segments@[j];
                let a = sj.start_vpn * PAGE_SIZE + k;
                if j == i as int {
                    assert(ms.byte_at(base + k) == seg.data@[k]);
                    assert(a == base + k);
                } else {
                    assert(sj.wf());
                    assert(segs_disjoint(sj, image.segments@[i as int]));
                    lemma_page_addr(sj.start_vpn as int, k);
                    lemma_offset_page_bound(k, sj.page_count as int);
                    let vp = a / (PAGE_SIZE as int);
                    assert(sj.start_vpn <= vp < sj.start_vpn + sj.page_count);
                    assert(pre.is_mapped(vp));
                    assert(mid.is_mapped(vp));
                    assert(ms.is_mapped(vp));
                    assert(!(base <= a < base + len)) by {
                        if base <= a < base + len {
                            let k2 = a - base;
                            lemma_page_addr(start as int, k2);
                            lemma_offset_page_bound(k2, count as int);
                            assert(start as int <= vp < start as int + count as int);
                            assert(false);
                        }
                    }
                    assert(ms.byte_at(a) == mid.byte_at(a));
                    assert(mid.frame_at(vp) == pre.frame_at(vp));
                    assert(mid.byte_at(a) == pre.byte_at(a));
                }
            }
        }
        i += 1;
    }
    proof {
        assert forall|v: int| ms.is_mapped(v) <==> image.maps(v) by {
            if ms.is_mapped(v) {
                let j = choose|j: int|
                    0 <= j < n && (#[trigger] image.segments@[j]).contains(v);
                assert(image.segments@[j].contains(v));
            }
            if image.maps(v) {
                let j = image.seg_of(v);
                assert(0 <= j < n && image.segments@[j].contains(v));
            }
        }
        assert forall|v: int| image.maps(v) implies ms.perm_at(v) == image.perm_of(v) by {
            let j = image.seg_of(v);
            assert(0 <= j < n && image.segments@[j].contains(v));
        }
    }
    let end = image_end(image);
    ms.heap_bottom = end;
    ms.program_brk = end;
    ms
}

/// The kernel invariant survives an update of the current task that
/// keeps its pid, status, parent, children and creation time — the
/// counters, priority, stride, address space and saved contexts may
/// change freely.
/// The kernel invariant survives an update of the current task that
/// keeps its pid, status, parent, children and creation time — the
/// counters, priority, stride, address space and saved contexts may
/// change freely.
#[verifier::rlimit(60)]
pub proof fn lemma_wf_after_current_update(pre: Kernel, post: Kernel)
    requires
        pre.wf(),
        pre.has_current(),
        post.manager.ready@ == pre.manager.ready@,
        post.processor == pre.processor,
        post.next_pid == pre.next_pid,
        post.init_pid == pre.init_pid,
        post.apps@ == pre.apps@,
        post.now_us == pre.now_us,
        tseq_unique(post.tasks@),
        post.tasks@.len() == pre.tasks@.len(),
        post.has_task(pre.cur_pid()),
        forall|q: int| q != pre.cur_pid() ==> (post.has_task(q) <==> pre.has_task(q)),
        forall|q: int|
            q != pre.cur_pid() && pre.has_task(q) ==> post.task_of(q) == pre.task_of(q),
        ({
            let t = post.task_of(pre.cur_pid());
            let o = pre.cur_task();
            &&& t.wf()
            &&& t.pid == o.pid
            &&& t.status == o.status
            &&& t.parent == o.parent
            &&& t.children@ == o.children@
            &&& t.create_time == o.create_time
        }),
    ensures
        post.wf(),
{
    let cp = pre.cur_pid();
    let s = post.tasks@;
    let sp = pre.tasks@;
    let t = post.task_of(cp);
    let o = pre.cur_task();
    assert(pre.processor.current matches Some(p) && pre.has_task(p as int));
    assert(0 <= tseq_idx(sp, cp) < sp.len() && sp[tseq_idx(sp, cp)].pid == cp);
    assert(o == sp[tseq_idx(sp, cp)]);
    assert(o.pid == cp);
    assert(o.wf());
    assert(post.tasks_wf()) by {
        assert forall|i: int| 0 <= i < s.len() implies (#[trigger] s[i]).wf() && s[i].pid
            < post.next_pid && s[i].create_time <= post.now_us by {
            let q = s[i].pid;
            assert(tseq_has(s, q as int));
            let j = tseq_idx(s, q as int);
            assert(0 <= j < s.len() && s[j].pid == q);
            assert(j == i);
            if q as int == cp {
                assert(s[i] == t);
            } else {
                assert(pre.has_task(q as int));
                let k = tseq_idx(sp, q as int);
                assert(0 <= k < sp.len() && sp[k].pid == q);
                assert(s[i] == sp[k]);
                assert(sp[k].wf() && sp[k].pid < pre.next_pid && sp[k].create_time
                    <= pre.now_us);
            }
        }
    }
    assert(post.running_wf()) by {
        assert forall|i: int| 0 <= i < s.len() implies ((#[trigger] s[i].status) is Running
            <==> post.processor.current == Some(s[i].pid)) by {
            let q = s[i].pid;
            assert(tseq_has(s, q as int));
            let j = tseq_idx(s, q as int);
            assert(j == i);
            if q as int == cp {
                assert(s[i] == t);
                assert(o.status is Running <==> pre.processor.current == Some(o.pid));
            } else {
                assert(post.has_task(q as int));
                assert(pre.has_task(q as int));
                let k = tseq_idx(sp, q as int);
                assert(0 <= k < sp.len() && sp[k].pid == q);
                assert(s[i] == sp[k]);
                assert(sp[k].status is Running <==> pre.processor.current == Some(sp[k].pid));
            }
        }
    }
    assert(post.ready_wf()) by {
        assert forall|k: int| 0 <= k < post.manager.ready@.len() implies {
            let e = #[trigger] post.manager.ready@[k];
            &&& post.has_task(e.pid as int)
            &&& post.task_of(e.pid as int).status is Ready
            &&& e.stride == post.task_of(e.pid as int).stride
            &&& e.priority == post.task_of(e.pid as int).priority
        } by {
            let e = post.manager.ready@[k];
            assert(pre.manager.ready@[k] == e);
            assert(pre.has_task(e.pid as int));
            assert(pre.task_of(e.pid as int).status is Ready);
            assert(e.pid as int != cp) by {
                if e.pid as int == cp {
                    assert(pre.task_of(cp) == o);
                    assert(o.status is Running);
                }
            }
            assert(post.task_of(e.pid as int) == pre.task_of(e.pid as int));
        }
    }
    assert(post.tree_wf()) by {
        assert forall|i: int, c: usize|
            0 <= i < s.len() && (#[trigger] s[i].children@.contains(c)) implies tseq_has(
            s,
            c as int,
        ) by {
            let q = s[i].pid;
            assert(tseq_has(s, q as int));
            assert(tseq_idx(s, q as int) == i);
            let op: TaskControlBlock = if q as int == cp {
                o
            } else {
                pre.task_of(q as int)
            };
            assert(s[i] == post.task_of(q as int));
            assert(op.children@ == s[i].children@);
            assert(pre.has_task(q as int)) by {
                if q as int != cp {
                    assert(post.has_task(q as int));
                }
            }
            let k = tseq_idx(sp, q as int);
            assert(0 <= k < sp.len() && sp[k] == op);
            assert(sp[k].children@.contains(c));
            assert(tseq_has(sp, c as int));
            if c as int == cp {
                assert(post.has_task(cp));
            } else {
                assert(pre.has_task(c as int));
                assert(post.has_task(c as int));
            }
        }
        assert forall|i: int, j: int|
            0 <= i < s.len() && 0 <= j < s.len() && (#[trigger] s[i].children@.contains(
                s[j].pid,
            )) implies s[j].parent == Some(s[i].pid) by {
            let qi = s[i].pid;
            let qj = s[j].pid;
            assert(tseq_has(s, qi as int) && tseq_has(s, qj as int));
            assert(tseq_idx(s, qi as int) == i);
            assert(tseq_idx(s, qj as int) == j);
            assert(pre.has_task(qi as int)) by {
                if qi as int != cp {
                    assert(post.has_task(qi as int));
                }
            }
            assert(pre.has_task(qj as int)) by {
                if qj as int != cp {
                    assert(post.has_task(qj as int));
                }
            }
            let ki = tseq_idx(sp, qi as int);
            let kj = tseq_idx(sp, qj as int);
            assert(0 <= ki < sp.len() && sp[ki].pid == qi);
            assert(0 <= kj < sp.len() && sp[kj].pid == qj);
            assert(sp[ki].children@ == s[i].children@) by {
                if qi as int == cp {
                    assert(sp[ki] == o && s[i] == t);
                } else {
                    assert(sp[ki] == s[i]);
                }
            }
            assert(sp[kj].parent == s[j].parent) by {
                if qj as int == cp {
                    assert(sp[kj] == o && s[j] == t);
                } else {
                    assert(sp[kj] == s[j]);
                }
            }
            assert(sp[ki].children@.contains(sp[kj].pid));
            assert(sp[kj].parent == Some(sp[ki].pid));
        }
        assert forall|i: int, j: int|
            #![trigger s[i].pid, s[j].parent]
            0 <= i < s.len() && 0 <= j < s.len() && s[j].parent == Some(s[i].pid) implies s[i]
                .children@.contains(s[j].pid) by {
            let qi = s[i].pid;
            let qj = s[j].pid;
            assert(tseq_has(s, qi as int) && tseq_has(s, qj as int));
            assert(tseq_idx(s, qi as int) == i);
            assert(tseq_idx(s, qj as int) == j);
            assert(pre.has_task(qi as int)) by {
                if qi as int != cp {
                    assert(post.has_task(qi as int));
                }
            }
            assert(pre.has_task(qj as int)) by {
                if qj as int != cp {
                    assert(post.has_task(qj as int));
                }
            }
            let ki = tseq_idx(sp, qi as int);
            let kj = tseq_idx(sp, qj as int);
            assert(0 <= ki < sp.len() && sp[ki].pid == qi);
            assert(0 <= kj < sp.len() && sp[kj].pid == qj);
            assert(sp[ki].children@ == s[i].children@) by {
                if qi as int == cp {
                    assert(sp[ki] == o && s[i] == t);
                } else {
                    assert(sp[ki] == s[i]);
                }
            }
            assert(sp[kj].parent == s[j].parent) by {
                if qj as int == cp {
                    assert(sp[kj] == o && s[j] == t);
                } else {
                    assert(sp[kj] == s[j]);
                }
            }
            assert(sp[kj].parent == Some(sp[ki].pid));
            assert(sp[ki].children@.contains(sp[kj].pid));
        }
        assert forall|j: int|
            0 <= j < s.len() && (#[trigger] s[j].parent) is Some implies tseq_has(
            s,
            s[j].parent.unwrap() as int,
        ) by {
            let qj = s[j].pid;
            assert(tseq_has(s, qj as int));
            assert(tseq_idx(s, qj as int) == j);
            assert(pre.has_task(qj as int)) by {
                if qj as int != cp {
                    assert(post.has_task(qj as int));
                }
            }
            let kj = tseq_idx(sp, qj as int);
            assert(0 <= kj < sp.len() && sp[kj].pid == qj);
            assert(sp[kj].parent == s[j].parent) by {
                if qj as int == cp {
                    assert(sp[kj] == o && s[j] == t);
                } else {
                    assert(sp[kj] == s[j]);
                }
            }
            assert(tseq_has(sp, sp[kj].parent.unwrap() as int));
            let pp = sp[kj].parent.unwrap() as int;
            if pp == cp {
                assert(post.has_task(cp));
            } else {
                assert(pre.has_task(pp));
                assert(post.has_task(pp));
            }
        }
        assert forall|i: int|
            0 <= i < s.len() && (#[trigger] s[i].status) is Zombie && Some(s[i].pid)
                != post.init_pid implies s[i].children@.len() == 0 by {
            let qi = s[i].pid;
            assert(tseq_has(s, qi as int));
            assert(tseq_idx(s, qi as int) == i);
            assert(pre.has_task(qi as int)) by {
                if qi as int != cp {
                    assert(post.has_task(qi as int));
                }
            }
            let ki = tseq_idx(sp, qi as int);
            assert(0 <= ki < sp.len() && sp[ki].pid == qi);
            if qi as int == cp {
                assert(sp[ki] == o && s[i] == t);
            } else {
                assert(sp[ki] == s[i]);
            }
            assert(sp[ki].status is Zombie && Some(sp[ki].pid) != pre.init_pid);
        }
    }
    assert(post.init_wf()) by {
        if post.init_pid is Some {
            let p = post.init_pid.unwrap();
            assert(pre.has_task(p as int));
            if p as int == cp {
                assert(post.task_of(p as int).parent == pre.task_of(p as int).parent);
            }
            assert forall|i: int| 0 <= i < s.len() implies p <= (#[trigger] s[i].pid) by {
                let q = s[i].pid;
                assert(tseq_has(s, q as int));
                assert(pre.has_task(q as int)) by {
                    if q as int != cp {
                        assert(post.has_task(q as int));
                    }
                }
                let k = tseq_idx(sp, q as int);
                assert(0 <= k < sp.len() && sp[k].pid == q);
                assert(p <= sp[k].pid);
            }
        }
    }
}

impl Kernel {
    /// Pid of the task currently assigned to the processor, if any.
    pub fn current_task(&self) -> (r: Option<usize>)
        ensures
            r == self.processor.current,
    {
        self.processor.current()
    }

    /// Index in `tasks` of the current task.
    pub(crate) fn current_index(&self) -> (r: usize)
        requires
            self.wf(),
            self.has_current(),
        ensures
            r < self.tasks@.len(),
            self.tasks@[r as int] == self.cur_task(),
            self.tasks@[r as int].pid as int == self.cur_pid(),
            tseq_idx(self.tasks@, self.cur_pid()) == r,
    {
        let p = self.processor.current.unwrap();
        proof {
            assert(self.has_task(p as int));
        }
        self.find_task_index(p).unwrap()
    }

    /// Creation timestamp of the current task.
    pub fn get_current_task_create_time(&self) -> (r: usize)
        requires
            self.wf(),
            self.has_current(),
        ensures
            r == self.cur_task().create_time,
    {
        let idx = self.current_index();
        self.tasks[idx].create_time
    }

    /// Lifecycle status of the current task.
    pub fn get_current_task_status(&self) -> (r: TaskStatus)
        requires
            self.wf(),
            self.has_current(),
        ensures
            r == self.cur_task().status,
    {
        let idx = self.current_index();
        self.tasks[idx].status
    }

    /// Per-syscall invocation counts of the current task.
    pub fn get_current_task_syscall_times(&self) -> (r: Vec<u32>)
        requires
            self.wf(),
            self.has_current(),
        ensures
            r@ == self.cur_task().syscall_times@,
    {
        let idx = self.current_index();
        crate::dup_vec(&self.tasks[idx].syscall_times)
    }

    /// Saved user-register state of the current task.
    pub fn current_trap_cx(&self) -> (r: crate::task::TrapContext)
        requires
            self.wf(),
            self.has_current(),
        ensures
            r.x@ == self.cur_task().trap_cx.x@,
            r.sepc == self.cur_task().trap_cx.sepc,
    {
        let idx = self.current_index();
        self.tasks[idx].trap_cx.duplicate()
    }

    /// Page-table lookup in the current task's address space.
    pub fn find_current_task_pagetable(&self, vpn: usize) -> (r: Option<u8>)
        requires
            self.wf(),
            self.has_current(),
        ensures
            r is Some <==> self.cur_task().memory_set.is_mapped(vpn as int),
            r is Some ==> r == Some(self.cur_task().memory_set.perm_at(vpn as int)),
    {
        let idx = self.current_index();
        self.tasks[idx].memory_set.translate(vpn)
    }

    /// Bytes at `[va, va + n)` of the current task's address space, if
    /// the whole range is mapped.
    pub fn read_current_bytes(&self, va: usize, n: usize) -> (r: Option<Vec<u8>>)
        requires
            self.wf(),
            self.has_current(),
        ensures
            r is Some <==> self.cur_task().memory_set.va_range_mapped(va as int, n as int),
            r matches Some(v) ==> v@.len() == n && forall|k: int|
                0 <= k < n ==> v@[k] == self.cur_task().memory_set.byte_at(va + k),
    {
        if n == 0 {
            return Some(Vec::new());
        }
        let idx = self.current_index();
        let ms = &self.tasks[idx].memory_set;
        if !ms.is_va_range_mapped(va, n) {
            return None;
        }
        proof {
            if n > 0 {
                assert(ms.is_mapped((va + n - 1) as int / (PAGE_SIZE as int)));
                ms.lemma_mapped_addr_bound(va as int + n - 1);
            }
        }
        Some(ms.read_bytes(va, n))
    }

    /// Update the scheduling priority of the current task; takes effect
    /// at its next dispatch.
    pub fn set_task_priority(&mut self, priority: usize)
        requires
            old(self).wf(),
            old(self).has_current(),
            priority >= crate::MIN_PRIORITY,
        ensures
            final(self).wf(),
            final(self).processor == old(self).processor,
            final(self).manager.ready@ == old(self).manager.ready@,
            final(self).same_admin(*old(self)),
            final(self).same_tasks_except(*old(self), old(self).cur_pid()),
            final(self).cur_task() == (TaskControlBlock {
                priority,
                ..old(self).cur_task()
            }),
    {
        let ghost pre = *self;
        let idx = self.current_index();
        let mut t = self.tasks.swap_remove(idx);
        t.priority = priority;
        let ghost tg = t;
        proof {
            lemma_task_replace(pre.tasks@, idx as int, tg);
        }
        self.tasks.push(t);
        proof {
            assert(self.tasks@ == pre.tasks@.update(idx as int, pre.tasks@.last()).drop_last()
                .push(tg));
            assert(tg == (TaskControlBlock { priority, ..pre.cur_task() }));
            assert(tg.wf());
            lemma_wf_after_current_update(pre, *self);
        }
    }

    /// Count one invocation of `syscall_id` against the current task; the
    /// counter saturates at its maximum.
    pub fn modify_syscall_times(&mut self, syscall_id: usize)
        requires
            old(self).wf(),
            old(self).has_current(),
            syscall_id < crate::MAX_SYSCALL_NUM,
        ensures
            final(self).wf(),
            final(self).processor == old(self).processor,
            final(self).manager.ready@ == old(self).manager.ready@,
            final(self).same_admin(*old(self)),
            final(self).same_tasks_except(*old(self), old(self).cur_pid()),
            final(self).cur_task() == (TaskControlBlock {
                syscall_times: final(self).cur_task().syscall_times,
                ..old(self).cur_task()
            }),
            final(self).cur_task().syscall_times@ == old(self).cur_task().syscall_times@.update(
                syscall_id as int,
                ({
                    let c = old(self).cur_task().syscall_times@[syscall_id as int];
                    if c == u32::MAX {
                        c
                    } else {
                        (c + 1) as u32
                    }
                }),
            ),
    {
        let ghost pre = *self;
        let idx = self.current_index();
        let mut t = self.tasks.swap_remove(idx);
        let c = t.syscall_times[syscall_id];
        let nc: u32 = if c == u32::MAX {
            c
        } else {
            c + 1
        };
        t.syscall_times.set(syscall_id, nc);
        let ghost tg = t;
        proof {
            lemma_task_replace(pre.tasks@, idx as int, tg);
        }
        self.tasks.push(t);
        proof {
            assert(self.tasks@ == pre.tasks@.update(idx as int, pre.tasks@.last()).drop_last()
                .push(tg));
            assert(tg.wf());
            lemma_wf_after_current_update(pre, *self);
        }
    }

    /// Map `[start_vpn, end_vpn)` in the current task's address space,
    /// zero-filled, with permission bits `perm`; every page must be free.
    pub fn current_insert_framed_area(&mut self, start_vpn: usize, end_vpn: usize, perm: u8)
        requires
            old(self).wf(),
            old(self).has_current(),
            start_vpn <= end_vpn <= MAX_VPN,
            old(self).cur_task().memory_set.range_free(start_vpn as int, end_vpn as int),
        ensures
            final(self).wf(),
            final(self).processor == old(self).processor,
            final(self).manager.ready@ == old(self).manager.ready@,
            final(self).same_admin(*old(self)),
            final(self).same_tasks_except(*old(self), old(self).cur_pid()),
            final(self).cur_task() == (TaskControlBlock {
                memory_set: final(self).cur_task().memory_set,
                ..old(self).cur_task()
            }),
            ({
                let m2 = final(self).cur_task().memory_set;
                let m1 = old(self).cur_task().memory_set;
                &&& m2.heap_bottom == m1.heap_bottom
                &&& m2.program_brk == m1.program_brk
                &&& forall|v: int|
                    start_vpn as int <= v < end_vpn as int ==> m2.is_mapped(v) && m2.perm_at(v)
                        == perm && crate::mm::is_zero_page(m2.frame_at(v).bytes@)
                &&& forall|v: int|
                    !(start_vpn as int <= v < end_vpn as int) ==> (m2.is_mapped(v)
                        <==> m1.is_mapped(v))
                &&& forall|v: int|
                    !(start_vpn as int <= v < end_vpn as int) && m1.is_mapped(v) ==> m2.frame_at(
                        v,
                    ) == m1.frame_at(v)
            }),
    {
        let ghost pre = *self;
        let idx = self.current_index();
        let mut t = self.tasks.swap_remove(idx);
        t.memory_set.insert_range(start_vpn, end_vpn, perm);
        let ghost tg = t;
        proof {
            lemma_task_replace(pre.tasks@, idx as int, tg);
        }
        self.tasks.push(t);
        proof {
            assert(self.tasks@ == pre.tasks@.update(idx as int, pre.tasks@.last()).drop_last()
                .push(tg));
            assert(tg.wf());
            lemma_wf_after_current_update(pre, *self);
        }
    }

    /// Unmap the pages covering `[start, start + len)` in the current
    /// task's address space; fails with -1, changing nothing, unless
    /// every page of the range is mapped.
    pub fn unmap_the_area(&mut self, start: usize, len: usize) -> (r: isize)
        requires
            old(self).wf(),
            old(self).has_current(),
            start + len <= MAX_VA,
        ensures
            final(self).wf(),
            final(self).processor == old(self).processor,
            final(self).manager.ready@ == old(self).manager.ready@,
            final(self).same_admin(*old(self)),
            final(self).same_tasks_except(*old(self), old(self).cur_pid()),
            ({
                let m1 = old(self).cur_task().memory_set;
                let sv = crate::mm::vpn_floor(start as int);
                let ev = crate::mm::vpn_ceil(start as int + len as int);
                if m1.range_mapped(sv, ev) {
                    let m2 = final(self).cur_task().memory_set;
                    &&& r == 0
                    &&& final(self).cur_task() == (TaskControlBlock {
                        memory_set: m2,
                        ..old(self).cur_task()
                    })
                    &&& m2.heap_bottom == m1.heap_bottom
                    &&& m2.program_brk == m1.program_brk
                    &&& forall|v: int| sv <= v < ev ==> !m2.is_mapped(v)
                    &&& forall|v: int| !(sv <= v < ev) ==> (m2.is_mapped(v) <==> m1.is_mapped(v))
                    &&& forall|v: int|
                        !(sv <= v < ev) && m1.is_mapped(v) ==> m2.frame_at(v) == m1.frame_at(v)
                } else {
                    r == -1 && final(self).cur_task() == old(self).cur_task()
                }
            }),
    {
        let ghost pre = *self;
        let svpn = start / PAGE_SIZE;
        let evpn = (start + len + (PAGE_SIZE - 1)) / PAGE_SIZE;
        proof {
            vstd::arithmetic::div_mod::lemma_div_is_ordered(
                start as int,
                start as int + len as int + (PAGE_SIZE - 1),
                PAGE_SIZE as int,
            );
        }
        let idx = self.current_index();
        if !self.tasks[idx].memory_set.is_range_mapped(svpn, evpn) {
            return -1;
        }
        let mut t = self.tasks.swap_remove(idx);
        t.memory_set.remove_range(svpn, evpn);
        let ghost tg = t;
        proof {
            lemma_task_replace(pre.tasks@, idx as int, tg);
        }
        self.tasks.push(t);
        proof {
            assert(self.tasks@ == pre.tasks@.update(idx as int, pre.tasks@.last()).drop_last()
                .push(tg));
            assert(tg.wf());
            lemma_wf_after_current_update(pre, *self);
        }
        0
    }

    /// Store `data` at `[va, va + data.len())` of the current task's
    /// address space, byte by byte through address translation; fails,
    /// changing nothing, unless the whole range is mapped.
    pub fn write_current_bytes(&mut self, va: usize, data: &Vec<u8>) -> (r: bool)
        requires
            old(self).wf(),
            old(self).has_current(),
        ensures
            final(self).wf(),
            final(self).processor == old(self).processor,
            final(self).manager.ready@ == old(self).manager.ready@,
            final(self).same_admin(*old(self)),
            final(self).same_tasks_except(*old(self), old(self).cur_pid()),
            r == old(self).cur_task().memory_set.va_range_mapped(va as int, data@.len() as int),
            ({
                let m1 = old(self).cur_task().memory_set;
                let m2 = final(self).cur_task().memory_set;
                if r {
                    &&& final(self).cur_task() == (TaskControlBlock {
                        memory_set: m2,
                        ..old(self).cur_task()
                    })
                    &&& m2.same_footprint(m1)
                    &&& forall|k: int| 0 <= k < data@.len() ==> m2.byte_at(va + k) == data@[k]
                    &&& m2.bytes_unchanged_outside(m1, va as int, data@.len() as int)
                } else {
                    final(self).cur_task() == old(self).cur_task()
                }
            }),
    {
        let ghost pre = *self;
        if data.len() == 0 {
            return true;
        }
        let idx = self.current_index();
        if !self.tasks[idx].memory_set.is_va_range_mapped(va, data.len()) {
            return false;
        }
        proof {
            let n = data@.len() as int;
            if n > 0 {
                assert(pre.cur_task().memory_set.is_mapped(
                    (va + n - 1) as int / (PAGE_SIZE as int),
                ));
                pre.cur_task().memory_set.lemma_mapped_addr_bound(va as int + n - 1);
            }
        }
        let mut t = self.tasks.swap_remove(idx);
        t.memory_set.write_bytes(va, data);
        let ghost tg = t;
        proof {
            lemma_task_replace(pre.tasks@, idx as int, tg);
        }
        self.tasks.push(t);
        proof {
            assert(self.tasks@ == pre.tasks@.update(idx as int, pre.tasks@.last()).drop_last()
                .push(tg));
            assert(tg.wf());
            lemma_wf_after_current_update(pre, *self);
        }
        true
    }
}

/// `tree_wf` survives any change that keeps the pid set and, per task,
/// the parent link, the children and zombie-ness.
pub proof fn lemma_tree_wf_preserved(pre: Kernel, post: Kernel)
    requires
        pre.tree_wf(),
        tseq_unique(pre.tasks@),
        tseq_unique(post.tasks@),
        post.init_pid == pre.init_pid,
        forall|q: int| post.has_task(q) <==> pre.has_task(q),
        forall|q: int|
            pre.has_task(q) ==> {
                let a = post.task_of(q);
                let b = pre.task_of(q);
                &&& a.parent == b.parent
                &&& a.children@ == b.children@
                &&& (a.status is Zombie <==> b.status is Zombie)
            },
    ensures
        post.tree_wf(),
{
    let s = post.tasks@;
    let sp = pre.tasks@;
    assert forall|i: int, c: usize|
        0 <= i < s.len() && (#[trigger] s[i].children@.contains(c)) implies tseq_has(
        s,
        c as int,
    ) by {
        let q = s[i].pid;
        assert(tseq_has(s, q as int));
        assert(tseq_idx(s, q as int) == i);
        assert(pre.has_task(q as int));
        let k = tseq_idx(sp, q as int);
        assert(0 <= k < sp.len() && sp[k].pid == q);
        assert(sp[k].children@ == s[i].children@);
        assert(sp[k].children@.contains(c));
        assert(tseq_has(sp, c as int));
        assert(pre.has_task(c as int) && post.has_task(c as int));
    }
    assert forall|i: int, j: int|
        0 <= i < s.len() && 0 <= j < s.len() && (#[trigger] s[i].children@.contains(
            s[j].pid,
        )) implies s[j].parent == Some(s[i].pid) by {
        let qi = s[i].pid;
        let qj = s[j].pid;
        assert(tseq_has(s, qi as int) && tseq_has(s, qj as int));
        assert(tseq_idx(s, qi as int) == i && tseq_idx(s, qj as int) == j);
        assert(pre.has_task(qi as int) && pre.has_task(qj as int));
        let ki = tseq_idx(sp, qi as int);
        let kj = tseq_idx(sp, qj as int);
        assert(0 <= ki < sp.len() && sp[ki].pid == qi);
        assert(0 <= kj < sp.len() && sp[kj].pid == qj);
        assert(sp[ki].children@ == s[i].children@);
        assert(sp[kj].parent == s[j].parent);
        assert(sp[ki].children@.contains(sp[kj].pid));
        assert(sp[kj].parent == Some(sp[ki].pid));
    }
    assert forall|i: int, j: int|
        #![trigger s[i].pid, s[j].parent]
        0 <= i < s.len() && 0 <= j < s.len() && s[j].parent == Some(s[i].pid) implies s[i]
            .children@.contains(s[j].pid) by {
        let qi = s[i].pid;
        let qj = s[j].pid;
        assert(tseq_has(s, qi as int) && tseq_has(s, qj as int));
        assert(tseq_idx(s, qi as int) == i && tseq_idx(s, qj as int) == j);
        assert(pre.has_task(qi as int) && pre.has_task(qj as int));
        let ki = tseq_idx(sp, qi as int);
        let kj = tseq_idx(sp, qj as int);
        assert(0 <= ki < sp.len() && sp[ki].pid == qi);
        assert(0 <= kj < sp.len() && sp[kj].pid == qj);
        assert(sp[ki].children@ == s[i].children@);
        assert(sp[kj].parent == s[j].parent);
        assert(sp[kj].parent == Some(sp[ki].pid));
        assert(sp[ki].children@.contains(sp[kj].pid));
    }
    assert forall|j: int|
        0 <= j < s.len() && (#[trigger] s[j].parent) is Some implies tseq_has(
        s,
        s[j].parent.unwrap() as int,
    ) by {
        let qj = s[j].pid;
        assert(tseq_has(s, qj as int));
        assert(tseq_idx(s, qj as int) == j);
        assert(pre.has_task(qj as int));
        let kj = tseq_idx(sp, qj as int);
        assert(0 <= kj < sp.len() && sp[kj].pid == qj);
        assert(sp[kj].parent == s[j].parent);
        assert(tseq_has(sp, sp[kj].parent.unwrap() as int));
        let pp = sp[kj].parent.unwrap() as int;
        assert(pre.has_task(pp) && post.has_task(pp));
    }
    assert forall|i: int|
        0 <= i < s.len() && (#[trigger] s[i].status) is Zombie && Some(s[i].pid)
            != post.init_pid implies s[i].children@.len() == 0 by {
        let qi = s[i].pid;
        assert(tseq_has(s, qi as int));
        assert(tseq_idx(s, qi as int) == i);
        assert(pre.has_task(qi as int));
        let ki = tseq_idx(sp, qi as int);
        assert(0 <= ki < sp.len() && sp[ki].pid == qi);
        assert(sp[ki].children@ == s[i].children@);
        assert(sp[ki].status is Zombie && Some(sp[ki].pid) != pre.init_pid);
    }
}

/// `tasks_wf` survives any change that keeps the pid set, each task's
/// well-formedness and creation time, the pid allocator and the clock.
pub proof fn lemma_tasks_wf_preserved(pre: Kernel, post: Kernel)
    requires
        pre.tasks_wf(),
        tseq_unique(post.tasks@),
        post.next_pid == pre.next_pid,
        post.now_us == pre.now_us,
        forall|q: int| post.has_task(q) <==> pre.has_task(q),
        forall|q: int|
            pre.has_task(q) ==> (post.task_of(q).wf() && post.task_of(q).create_time
                == pre.task_of(q).create_time),
    ensures
        post.tasks_wf(),
{
    let s = post.tasks@;
    let sp = pre.tasks@;
    assert forall|i: int| 0 <= i < s.len() implies (#[trigger] s[i]).wf() && s[i].pid
        < post.next_pid && s[i].create_time <= post.now_us by {
        let q = s[i].pid;
        assert(tseq_has(s, q as int));
        assert(tseq_idx(s, q as int) == i);
        assert(s[i] == post.task_of(q as int));
        assert(pre.has_task(q as int));
        let k = tseq_idx(sp, q as int);
        assert(0 <= k < sp.len() && sp[k].pid == q);
        assert(sp[k].pid < pre.next_pid && sp[k].create_time <= pre.now_us);
    }
}

/// `init_wf` survives any change that keeps the pid set and each task's
/// parent link.
pub proof fn lemma_init_wf_preserved(pre: Kernel, post: Kernel)
    requires
        pre.init_wf(),
        tseq_unique(pre.tasks@),
        tseq_unique(post.tasks@),
        post.init_pid == pre.init_pid,
        post.tasks@.len() == pre.tasks@.len(),
        forall|q: int| post.has_task(q) <==> pre.has_task(q),
        forall|q: int| pre.has_task(q) ==> post.task_of(q).parent == pre.task_of(q).parent,
    ensures
        post.init_wf(),
{
    let s = post.tasks@;
    let sp = pre.tasks@;
    if post.init_pid is Some {
        let p = post.init_pid.unwrap();
        assert(pre.has_task(p as int) && post.has_task(p as int));
        assert(post.task_of(p as int).parent == pre.task_of(p as int).parent);
        assert forall|i: int| 0 <= i < s.len() implies p <= (#[trigger] s[i].pid) by {
            let q = s[i].pid;
            assert(tseq_has(s, q as int));
            assert(pre.has_task(q as int));
            let k = tseq_idx(sp, q as int);
            assert(0 <= k < sp.len() && sp[k].pid == q);
            assert(p <= sp[k].pid);
        }
    }
}

/// The kernel invariant survives creating a task: a fresh pid, status
/// Ready, no children, queued in the ready set, and either no parent (a
/// root task) or registered in its live parent's children.
#[verifier::rlimit(60)]
pub proof fn lemma_wf_after_task_create(pre: Kernel, post: Kernel, c: TaskControlBlock)
    requires
        pre.wf(),
        post.processor == pre.processor,
        post.apps@ == pre.apps@,
        post.now_us == pre.now_us,
        pre.next_pid < PID_LIMIT,
        post.next_pid == pre.next_pid + 1,
        c.pid == pre.next_pid,
        c.wf(),
        c.status is Ready,
        c.children@.len() == 0,
        c.create_time <= pre.now_us,
        post.manager.ready@ == pre.manager.ready@.push(
            ReadyEntry { pid: c.pid, stride: c.stride, priority: c.priority },
        ),
        tseq_unique(post.tasks@),
        post.tasks@.len() == pre.tasks@.len() + 1,
        post.has_task(c.pid as int),
        post.task_of(c.pid as int) == c,
        match c.parent {
            None => {
                &&& post.init_pid == (if pre.init_pid is Some {
                    pre.init_pid
                } else {
                    Some(c.pid)
                })
                &&& forall|q: int| q != c.pid ==> (post.has_task(q) <==> pre.has_task(q))
                &&& forall|q: int|
                    q != c.pid && pre.has_task(q) ==> post.task_of(q) == pre.task_of(q)
            },
            Some(pp) => {
                &&& post.init_pid == pre.init_pid
                &&& pre.has_task(pp as int)
                &&& post.has_task(pp as int)
                &&& !(pre.task_of(pp as int).status is Zombie)
                &&& post.task_of(pp as int).children@ == pre.task_of(pp as int).children@.push(
                    c.pid,
                )
                &&& post.task_of(pp as int) == (TaskControlBlock {
                    children: post.task_of(pp as int).children,
                    ..pre.task_of(pp as int)
                })
                &&& forall|q: int|
                    q != c.pid && q != pp ==> (post.has_task(q) <==> pre.has_task(q))
                &&& forall|q: int|
                    q != c.pid && q != pp && pre.has_task(q) ==> post.task_of(q) == pre.task_of(
                        q,
                    )
            },
        },
    ensures
        post.wf(),
{
    let s = post.tasks@;
    let sp = pre.tasks@;
    let cp: int = c.pid as int;
    assert forall|q: int| pre.has_task(q) implies q < pre.next_pid by {
        let k = tseq_idx(sp, q);
        assert(0 <= k < sp.len() && sp[k].pid == q);
        assert(sp[k].pid < pre.next_pid);
    }
    assert forall|q: int| pre.has_task(q) implies post.has_task(q) by {
        if q != cp {
            match c.parent {
                None => {},
                Some(pp) => {
                    if q == pp as int {
                    }
                },
            }
        }
    }
    assert forall|q: int| post.has_task(q) && q != cp implies pre.has_task(q) by {
        match c.parent {
            None => {},
            Some(pp) => {
                if q == pp as int {
                }
            },
        }
    }
    let ghost pparent: Option<usize> = c.parent;
    assert forall|q: int|
        q != cp && pre.has_task(q) implies {
            let a = post.task_of(q);
            let b = pre.task_of(q);
            &&& a.pid == b.pid
            &&& a.status == b.status
            &&& a.parent == b.parent
            &&& a.create_time == b.create_time
            &&& a.stride == b.stride
            &&& a.priority == b.priority
            &&& a.wf()
            &&& forall|x: usize|
                #[trigger] a.children@.contains(x) <==> (b.children@.contains(x) || (
                pparent == Some(b.pid) && x == c.pid))
        } by {
        let b = pre.task_of(q);
        let k = tseq_idx(sp, q);
        assert(0 <= k < sp.len() && sp[k].pid == q);
        assert(sp[k].wf());
        match c.parent {
            None => {
                assert(post.task_of(q) == b);
                assert forall|x: usize| #[trigger] post.task_of(q).children@.contains(x)
                    <==> (b.children@.contains(x) || (pparent == Some(b.pid) && x
                    == c.pid)) by {}
            },
            Some(pp) => {
                if q == pp as int {
                    let a = post.task_of(q);
                    assert(a.children@ == b.children@.push(c.pid));
                    assert forall|x: usize| #[trigger] a.children@.contains(x) <==> (
                    b.children@.contains(x) || x == c.pid) by {
                        if a.children@.contains(x) {
                            let ii = choose|ii: int|
                                0 <= ii < a.children@.len() && a.children@[ii] == x;
                            if ii < b.children@.len() {
                                assert(b.children@[ii] == x);
                            } else {
                                assert(x == c.pid);
                            }
                        }
                        if b.children@.contains(x) {
                            let ii = choose|ii: int|
                                0 <= ii < b.children@.len() && b.children@[ii] == x;
                            assert(a.children@[ii] == x);
                        }
                        if x == c.pid {
                            assert(a.children@[b.children@.len() as int] == x);
                        }
                    }
                    assert(a.wf()) by {
                        assert forall|i1: int, j1: int|
                            0 <= i1 < j1 < a.children@.len() implies a.children@[i1]
                            != a.children@[j1] by {
                            if j1 < b.children@.len() {
                                assert(a.children@[i1] == b.children@[i1] && a.children@[j1]
                                    == b.children@[j1]);
                            } else {
                                assert(a.children@[j1] == c.pid);
                                assert(a.children@[i1] == b.children@[i1]);
                                if b.children@[i1] == c.pid {
                                    assert(b.children@.contains(c.pid));
                                    assert(tseq_has(sp, c.pid as int));
                                    assert(pre.has_task(cp));
                                    assert(cp < pre.next_pid);
                                }
                            }
                        }
                        assert forall|i1: int| 0 <= i1 < a.children@.len() implies #[trigger]
                            a.children@[i1] < PID_LIMIT by {
                            if i1 < b.children@.len() {
                                assert(a.children@[i1] == b.children@[i1]);
                            } else {
                                assert(a.children@[i1] == c.pid);
                            }
                        }
                    }
                } else {
                    assert(post.task_of(q) == b);
                }
            },
        }
    }
    assert(!pre.has_task(cp));
    assert(post.tasks_wf()) by {
        assert forall|i: int| 0 <= i < s.len() implies (#[trigger] s[i]).wf() && s[i].pid
            < post.next_pid && s[i].create_time <= post.now_us by {
            let q = s[i].pid;
            assert(tseq_has(s, q as int));
            assert(tseq_idx(s, q as int) == i);
            assert(s[i] == post.task_of(q as int));
            if q as int == cp {
            } else {
                assert(pre.has_task(q as int));
                assert(q < pre.next_pid);
                assert(pre.task_of(q as int).create_time <= pre.now_us);
            }
        }
    }
    assert(post.running_wf()) by {
        if post.processor.current is Some {
            let p = post.processor.current.unwrap();
            assert(pre.has_task(p as int));
            assert(post.has_task(p as int));
        }
        assert forall|i: int| 0 <= i < s.len() implies ((#[trigger] s[i].status) is Running
            <==> post.processor.current == Some(s[i].pid)) by {
            let q = s[i].pid;
            assert(tseq_has(s, q as int));
            assert(tseq_idx(s, q as int) == i);
            assert(s[i] == post.task_of(q as int));
            if q as int == cp {
                assert(s[i].status is Ready);
                if post.processor.current == Some(c.pid) {
                    assert(pre.has_task(cp));
                    assert(false);
                }
            } else {
                assert(pre.has_task(q as int));
                let k = tseq_idx(sp, q as int);
                assert(0 <= k < sp.len() && sp[k].pid == q);
                assert(sp[k].status is Running <==> pre.processor.current == Some(sp[k].pid));
                assert(s[i].status == sp[k].status);
            }
        }
    }
    assert(post.ready_wf()) by {
        let rd = post.manager.ready@;
        let rdp = pre.manager.ready@;
        assert forall|k: int| 0 <= k < rd.len() implies {
            let e = #[trigger] rd[k];
            &&& post.has_task(e.pid as int)
            &&& post.task_of(e.pid as int).status is Ready
            &&& e.stride == post.task_of(e.pid as int).stride
            &&& e.priority == post.task_of(e.pid as int).priority
        } by {
            if k < rdp.len() {
                let e = rdp[k];
                assert(rd[k] == e);
                assert(pre.has_task(e.pid as int));
                assert(e.pid as int != cp);
                assert(post.task_of(e.pid as int).status == pre.task_of(e.pid as int).status);
            } else {
                assert(rd[k] == (ReadyEntry { pid: c.pid, stride: c.stride, priority: c.priority }));
            }
        }
        assert forall|k: int, l: int| 0 <= k < l < rd.len() implies rd[k].pid != rd[l].pid by {
            if l < rdp.len() {
                assert(rd[k] == rdp[k] && rd[l] == rdp[l]);
            } else {
                assert(rd[l].pid == c.pid);
                assert(rd[k] == rdp[k]);
                assert(pre.has_task(rdp[k].pid as int));
                assert(rdp[k].pid as int != cp);
            }
        }
    }
    assert(post.tree_wf()) by {
        assert forall|i: int, cc: usize|
            0 <= i < s.len() && (#[trigger] s[i].children@.contains(cc)) implies tseq_has(
            s,
            cc as int,
        ) by {
            let q = s[i].pid;
            assert(tseq_has(s, q as int));
            assert(tseq_idx(s, q as int) == i);
            if q as int == cp {
                assert(s[i] == c);
                assert(false);
            } else {
                assert(pre.has_task(q as int));
                assert(s[i] == post.task_of(q as int));
                assert(s[i].children@.contains(cc) <==> (pre.task_of(q as int).children@.contains(
                    cc,
                ) || (pparent == Some(pre.task_of(q as int).pid) && cc == c.pid)));
                if pre.task_of(q as int).children@.contains(cc) {
                    let k = tseq_idx(sp, q as int);
                    assert(sp[k] == pre.task_of(q as int));
                    assert(sp[k].children@.contains(cc));
                    assert(tseq_has(sp, cc as int));
                    assert(pre.has_task(cc as int));
                    assert(post.has_task(cc as int));
                } else {
                    assert(cc == c.pid);
                    assert(post.has_task(cp));
                }
            }
        }
        assert forall|i: int, j: int|
            0 <= i < s.len() && 0 <= j < s.len() && (#[trigger] s[i].children@.contains(
                s[j].pid,
            )) implies s[j].parent == Some(s[i].pid) by {
            let qi = s[i].pid;
            let qj = s[j].pid;
            assert(tseq_has(s, qi as int) && tseq_has(s, qj as int));
            assert(tseq_idx(s, qi as int) == i && tseq_idx(s, qj as int) == j);
            if qi as int == cp {
                assert(s[i] == c);
                assert(false);
            } else {
                assert(pre.has_task(qi as int));
                let bi = pre.task_of(qi as int);
                assert(s[i].children@.contains(qj) <==> (bi.children@.contains(qj) || (pparent
                    == Some(bi.pid) && qj == c.pid)));
                if bi.children@.contains(qj) {
                    let ki = tseq_idx(sp, qi as int);
                    assert(sp[ki] == bi && sp[ki].pid == qi);
                    assert(tseq_has(sp, qj as int));
                    assert(qj as int != cp);
                    let kj = tseq_idx(sp, qj as int);
                    assert(0 <= kj < sp.len() && sp[kj].pid == qj);
                    assert(sp[ki].children@.contains(sp[kj].pid));
                    assert(sp[kj].parent == Some(sp[ki].pid));
                    assert(s[j] == post.task_of(qj as int));
                    assert(s[j].parent == sp[kj].parent);
                } else {
                    assert(qj == c.pid && pparent == Some(qi));
                    assert(s[j] == c);
                    assert(c.parent == Some(qi));
                }
            }
        }
        assert forall|i: int, j: int|
            #![trigger s[i].pid, s[j].parent]
            0 <= i < s.len() && 0 <= j < s.len() && s[j].parent == Some(s[i].pid) implies s[i]
                .children@.contains(s[j].pid) by {
            let qi = s[i].pid;
            let qj = s[j].pid;
            assert(tseq_has(s, qi as int) && tseq_has(s, qj as int));
            assert(tseq_idx(s, qi as int) == i && tseq_idx(s, qj as int) == j);
            if qj as int == cp {
                assert(s[j] == c);
                assert(pparent == Some(qi));
                assert(qi as int != cp) by {
                    if qi as int == cp {
                        assert(pre.has_task(qi as int));
                        assert(false);
                    }
                }
                assert(pre.has_task(qi as int));
                assert(post.task_of(qi as int).children@.contains(c.pid));
                assert(s[i] == post.task_of(qi as int));
            } else {
                assert(pre.has_task(qj as int));
                let kj = tseq_idx(sp, qj as int);
                assert(0 <= kj < sp.len() && sp[kj].pid == qj);
                assert(s[j] == post.task_of(qj as int));
                assert(s[j].parent == sp[kj].parent);
                assert(qi as int != cp) by {
                    if qi as int == cp {
                        assert(sp[kj].parent == Some(c.pid));
                        assert(tseq_has(sp, cp));
                        assert(false);
                    }
                }
                assert(pre.has_task(qi as int));
                let ki = tseq_idx(sp, qi as int);
                assert(0 <= ki < sp.len() && sp[ki].pid == qi);
                assert(sp[kj].parent == Some(sp[ki].pid));
                assert(sp[ki].children@.contains(sp[kj].pid));
                assert(s[i] == post.task_of(qi as int));
                assert(s[i].children@.contains(qj) <==> (sp[ki].children@.contains(qj) || (
                pparent == Some(qi) && qj == c.pid)));
            }
        }
        assert forall|j: int|
            0 <= j < s.len() && (#[trigger] s[j].parent) is Some implies tseq_has(
            s,
            s[j].parent.unwrap() as int,
        ) by {
            let qj = s[j].pid;
            assert(tseq_has(s, qj as int));
            assert(tseq_idx(s, qj as int) == j);
            if qj as int == cp {
                assert(s[j] == c);
                assert(pparent is Some);
                assert(pre.has_task(pparent.unwrap() as int));
                assert(post.has_task(pparent.unwrap() as int));
            } else {
                assert(pre.has_task(qj as int));
                let kj = tseq_idx(sp, qj as int);
                assert(0 <= kj < sp.len() && sp[kj].pid == qj);
                assert(s[j] == post.task_of(qj as int));
                assert(s[j].parent == sp[kj].parent);
                assert(tseq_has(sp, sp[kj].parent.unwrap() as int));
                assert(pre.has_task(sp[kj].parent.unwrap() as int));
                assert(post.has_task(sp[kj].parent.unwrap() as int));
            }
        }
        assert forall|i: int|
            0 <= i < s.len() && (#[trigger] s[i].status) is Zombie && Some(s[i].pid)
                != post.init_pid implies s[i].children@.len() == 0 by {
            let qi = s[i].pid;
            assert(tseq_has(s, qi as int));
            assert(tseq_idx(s, qi as int) == i);
            if qi as int == cp {
                assert(s[i] == c);
            } else {
                assert(pre.has_task(qi as int));
                let ki = tseq_idx(sp, qi as int);
                assert(0 <= ki < sp.len() && sp[ki].pid == qi);
                assert(s[i] == post.task_of(qi as int));
                assert(s[i].status == sp[ki].status);
                if sp[ki].status is Zombie {
                    assert(pre.init_pid is Some) by {
                        assert(sp.len() > 0);
                    }
                    assert(Some(sp[ki].pid) != pre.init_pid);
                    assert(sp[ki].children@.len() == 0);
                    match c.parent {
                        None => {},
                        Some(pp) => {
                            if qi as int == pp as int {
                                assert(pre.task_of(pp as int) == sp[ki]);
                                assert(false);
                            } else {
                                assert(s[i].children@ == sp[ki].children@);
                            }
                        },
                    }
                }
            }
        }
    }
    assert(post.init_wf()) by {
        if post.init_pid is Some {
            let p = post.init_pid.unwrap();
            assert(post.has_task(p as int)) by {
                if pre.init_pid is Some {
                    assert(pre.has_task(p as int));
                } else {
                    assert(p == c.pid);
                }
            }
            assert(post.task_of(p as int).parent is None) by {
                if pre.init_pid is Some {
                    assert(pre.has_task(p as int));
                    assert(pre.task_of(p as int).parent is None);
                    if p as int == cp {
                        assert(false);
                    }
                    match c.parent {
                        None => {},
                        Some(pp) => {
                            if p as int == pp as int {
                                assert(post.task_of(p as int).parent == pre.task_of(
                                    p as int,
                                ).parent);
                            }
                        },
                    }
                } else {
                    assert(p == c.pid);
                    assert(post.task_of(cp) == c);
                    assert(c.parent is None) by {
                        match c.parent {
                            None => {},
                            Some(pp) => {
                                assert(pre.has_task(pp as int));
                                assert(sp.len() > 0);
                                assert(pre.init_pid is Some);
                                assert(false);
                            },
                        }
                    }
                }
            }
            assert forall|i: int| 0 <= i < s.len() implies p <= (#[trigger] s[i].pid) by {
                let q = s[i].pid;
                assert(tseq_has(s, q as int));
                if q as int == cp {
                    if pre.init_pid is Some {
                        assert(pre.has_task(p as int));
                        assert((p as int) < pre.next_pid);
                    }
                } else {
                    assert(pre.has_task(q as int));
                    let k = tseq_idx(sp, q as int);
                    assert(0 <= k < sp.len() && sp[k].pid == q);
                    if pre.init_pid is Some {
                        assert(p <= sp[k].pid);
                    } else {
                        assert(sp.len() > 0);
                        assert(pre.init_pid is Some);
                        assert(false);
                    }
                }
            }
        } else {
            assert(pre.init_pid is None);
            match c.parent {
                None => {
                    assert(post.init_pid == Some(c.pid));
                    assert(false);
                },
                Some(pp) => {
                    assert(pre.has_task(pp as int));
                    assert(sp.len() > 0);
                    assert(pre.init_pid is Some);
                    assert(false);
                },
            }
        }
    }
    assert(post.apps_wf());
}

impl Kernel {
    /// Create a root task from a registered application image and queue
    /// it — the explicit initialization that must run before any task
    /// does.  Returns the created pid, or -1 when the name resolves to
    /// no image.
    pub fn bootstrap(&mut self, name: &Vec<u8>) -> (r: isize)
        requires
            old(self).wf(),
            old(self).next_pid < PID_LIMIT,
        ensures
            final(self).wf(),
            !old(self).has_app(name@) ==> r == -1 && final(self).tasks@ == old(self).tasks@
                && final(self).manager.ready@ == old(self).manager.ready@ && final(self).processor
                == old(self).processor && final(self).same_admin(*old(self)),
            old(self).has_app(name@) ==> ({
                let pid = old(self).next_pid;
                let image = old(self).app_image(name@);
                &&& r == pid as isize
                &&& final(self).has_task(pid as int)
                &&& ({
                    let t = final(self).task_of(pid as int);
                    &&& t.status is Ready
                    &&& t.priority == crate::DEFAULT_PRIORITY
                    &&& t.stride == 0
                    &&& t.parent is None
                    &&& t.children@.len() == 0
                    &&& t.create_time == old(self).now_us
                    &&& t.exit_code == 0
                    &&& t.trap_cx.sepc == image.entry
                    &&& loaded_from(t.memory_set, image)
                })
                &&& final(self).manager.ready@ == old(self).manager.ready@.push(
                    (ReadyEntry { pid: pid, stride: 0, priority: crate::DEFAULT_PRIORITY }),
                )
                &&& final(self).next_pid == old(self).next_pid + 1
                &&& final(self).init_pid == (if old(self).init_pid is Some {
                    old(self).init_pid
                } else {
                    Some(pid)
                })
                &&& final(self).same_tasks_except(*old(self), pid as int)
                &&& final(self).processor == old(self).processor
                &&& final(self).apps@ == old(self).apps@
                &&& final(self).now_us == old(self).now_us
            }),
    {
        let ghost pre = *self;
        let idx_opt = self.find_app(name);
        if idx_opt.is_none() {
            return -1;
        }
        let ai = idx_opt.unwrap();
        let ms = build_memory_set(&self.apps[ai].image);
        let entry_pc = self.apps[ai].image.entry;
        let pid = self.next_pid;
        let t = TaskControlBlock {
            pid,
            status: TaskStatus::Ready,
            priority: crate::DEFAULT_PRIORITY,
            stride: 0,
            create_time: self.now_us,
            syscall_times: TaskControlBlock::fresh_syscall_times(),
            exit_code: 0,
            memory_set: ms,
            trap_cx: crate::task::TrapContext::app_init_context(entry_pc),
            task_cx: crate::task::TaskContext::zero_init(),
            parent: None,
            children: Vec::new(),
        };
        let ghost tg = t;
        proof {
            assert(!pre.has_task(pid as int)) by {
                if pre.has_task(pid as int) {
                    let k = tseq_idx(pre.tasks@, pid as int);
                    assert(0 <= k < pre.tasks@.len() && pre.tasks@[k].pid == pid);
                    assert(pre.tasks@[k].pid < pre.next_pid);
                }
            }
            lemma_task_push(pre.tasks@, tg);
        }
        self.tasks.push(t);
        self.next_pid = pid + 1;
        if self.init_pid.is_none() {
            self.init_pid = Some(pid);
        }
        self.manager.add(ReadyEntry { pid, stride: 0, priority: crate::DEFAULT_PRIORITY });
        proof {
            assert(self.tasks@ == pre.tasks@.push(tg));
            assert(tg.wf());
            lemma_wf_after_task_create(pre, *self, tg);
        }
        pid as isize
    }

    /// One step of the dispatch loop: remove the stride-minimal Ready
    /// task from the manager, mark it Running, assign it to the
    /// processor, and advance its stride by `BIG_STRIDE / priority`.
    /// With an empty ready set the processor stays idle and nothing
    /// changes; the embedder's idle policy (halting until an interrupt)
    /// decides what happens then, rather than a busy loop here.
    #[verifier::rlimit(60)]
    pub fn dispatch(&mut self) -> (r: Option<usize>)
        requires
            old(self).wf(),
            old(self).processor.current is None,
        ensures
            final(self).wf(),
            r is None ==> old(self).manager.ready@.len() == 0 && final(self).tasks@ == old(self).tasks@ && final(self).manager.ready@ == old(self).manager.ready@ && final(self).processor.current is None && final(self).same_admin(*old(self)),
            r matches Some(p) ==> ({
                &&& final(self).processor.current == Some(p)
                &&& old(self).has_task(p as int)
                &&& old(self).task_of(p as int).status is Ready
                &&& exists|i: int|
                    0 <= i < old(self).manager.ready@.len() && (#[trigger] old(self).manager.ready@[i]).pid == p && final(self).manager.ready@ == old(self).manager.ready@.remove(i) && (forall|j: int|
                        0 <= j < old(self).manager.ready@.len() ==> entry_le(
                            old(self).manager.ready@[i],
                            #[trigger] old(self).manager.ready@[j],
                        ))
                &&& final(self).has_task(p as int)
                &&& final(self).task_of(p as int) == (TaskControlBlock {
                    status: TaskStatus::Running,
                    stride: final(self).task_of(p as int).stride,
                    ..old(self).task_of(p as int)
                })
                &&& final(self).task_of(p as int).stride as int == stride_after(
                    old(self).task_of(p as int).stride,
                    old(self).task_of(p as int).priority,
                )
                &&& final(self).same_tasks_except(*old(self), p as int)
                &&& final(self).same_admin(*old(self))
            }),
    {
        let ghost pre = *self;
        let fetched = self.manager.fetch();
        if fetched.is_none() {
            proof {
                assert(self.manager.ready@ == pre.manager.ready@);
                assert(self.wf());
            }
            return None;
        }
        let e = fetched.unwrap();
        let ghost fi = choose|i: int|
            0 <= i < pre.manager.ready@.len() && Some(pre.manager.ready@[i]) == fetched
                && self.manager.ready@ == pre.manager.ready@.remove(i);
        proof {
            assert(0 <= fi < pre.manager.ready@.len() && pre.manager.ready@[fi] == e
                && self.manager.ready@ == pre.manager.ready@.remove(fi));
            assert(pre.has_task(e.pid as int));
            assert(pre.task_of(e.pid as int).status is Ready);
            assert(e.stride == pre.task_of(e.pid as int).stride);
            assert(e.priority == pre.task_of(e.pid as int).priority);
            assert(self.tasks@ == pre.tasks@);
        }
        let p = e.pid;
        let idx = self.find_task_index(p).unwrap();
        let mut t = self.tasks.swap_remove(idx);
        let inc: u64 = crate::BIG_STRIDE / (t.priority as u64);
        let ns: u64 = if t.stride <= u64::MAX - inc {
            t.stride + inc
        } else {
            u64::MAX
        };
        t.stride = ns;
        t.status = TaskStatus::Running;
        let ghost tg = t;
        proof {
            lemma_task_replace(pre.tasks@, idx as int, tg);
        }
        self.tasks.push(t);
        self.processor.current = Some(p);
        proof {
            assert(self.tasks@ == pre.tasks@.update(idx as int, pre.tasks@.last()).drop_last()
                .push(tg));
            assert(tg.wf());
            assert(self.task_of(p as int) == tg);
            assert(tg.priority as int >= 2);
            assert((crate::BIG_STRIDE as int) / (tg.priority as int) == inc as int);
            assert(self.tasks_wf()) by {
                lemma_tasks_wf_preserved(pre, *self);
            }
            assert(self.tree_wf()) by {
                lemma_tree_wf_preserved(pre, *self);
            }
            assert(self.init_wf()) by {
                lemma_init_wf_preserved(pre, *self);
            }
            assert(self.running_wf()) by {
                assert forall|i: int| 0 <= i < self.tasks@.len() implies ((
                #[trigger] self.tasks@[i].status) is Running <==> self.processor.current == Some(
                    self.tasks@[i].pid,
                )) by {
                    let q = self.tasks@[i].pid;
                    assert(tseq_has(self.tasks@, q as int));
                    assert(tseq_idx(self.tasks@, q as int) == i);
                    assert(self.tasks@[i] == self.task_of(q as int));
                    if q == p {
                        assert(self.tasks@[i] == tg);
                    } else {
                        assert(pre.has_task(q as int));
                        let k = tseq_idx(pre.tasks@, q as int);
                        assert(0 <= k < pre.tasks@.len() && pre.tasks@[k].pid == q);
                        assert(pre.tasks@[k].status is Running <==> pre.processor.current
                            == Some(pre.tasks@[k].pid));
                        assert(self.tasks@[i].status == pre.tasks@[k].status);
                    }
                }
            }
            assert(self.ready_wf()) by {
                let rd = self.manager.ready@;
                let rdp = pre.manager.ready@;
                assert forall|k: int| 0 <= k < rd.len() implies {
                    let e2 = #[trigger] rd[k];
                    &&& self.has_task(e2.pid as int)
                    &&& self.task_of(e2.pid as int).status is Ready
                    &&& e2.stride == self.task_of(e2.pid as int).stride
                    &&& e2.priority == self.task_of(e2.pid as int).priority
                } by {
                    let j: int = if k < fi {
                        k
                    } else {
                        k + 1
                    };
                    assert(rd[k] == rdp[j]);
                    let e2 = rdp[j];
                    assert(pre.has_task(e2.pid as int));
                    assert(e2.pid != p) by {
                        if e2.pid == p {
                            assert(rdp[fi].pid == p);
                            assert(j != fi);
                        }
                    }
                    assert(self.task_of(e2.pid as int) == pre.task_of(e2.pid as int));
                }
                assert forall|k: int, l: int| 0 <= k < l < rd.len() implies rd[k].pid
                    != rd[l].pid by {
                    let jk: int = if k < fi {
                        k
                    } else {
                        k + 1
                    };
                    let jl: int = if l < fi {
                        l
                    } else {
                        l + 1
                    };
                    assert(rd[k] == rdp[jk] && rd[l] == rdp[jl]);
                    assert(jk < jl);
                }
            }
            assert(self.wf());
        }
        Some(p)
    }
}

/// The kernel invariant survives a task's exit: the current task turns
/// Zombie with its exit code recorded, the processor goes idle, and —
/// unless the exiting task is the initial one — its children move to the
/// initial task, which adopts them.
#[verifier::rlimit(100)]
pub proof fn lemma_wf_after_exit(pre: Kernel, post: Kernel, code: i32)
    requires
        pre.wf(),
        pre.has_current(),
        post.processor.current is None,
        post.manager.ready@ == pre.manager.ready@,
        post.next_pid == pre.next_pid,
        post.init_pid == pre.init_pid,
        post.apps@ == pre.apps@,
        post.now_us == pre.now_us,
        tseq_unique(post.tasks@),
        post.tasks@.len() == pre.tasks@.len(),
        forall|q: int| post.has_task(q) <==> pre.has_task(q),
        pre.init_pid is Some,
        ({
            let cp = pre.cur_pid();
            let ip = pre.init_pid.unwrap() as int;
            let o = pre.cur_task();
            if cp == ip {
                &&& post.task_of(cp) == (TaskControlBlock {
                    status: TaskStatus::Zombie,
                    exit_code: code,
                    ..o
                })
                &&& forall|q: int| q != cp && pre.has_task(q) ==> post.task_of(q) == pre.task_of(q)
            } else {
                &&& post.task_of(cp) == (TaskControlBlock {
                    status: TaskStatus::Zombie,
                    exit_code: code,
                    children: post.task_of(cp).children,
                    ..o
                })
                &&& post.task_of(cp).children@.len() == 0
                &&& post.task_of(ip) == (TaskControlBlock {
                    children: post.task_of(ip).children,
                    ..pre.task_of(ip)
                })
                &&& post.task_of(ip).children@ == pre.task_of(ip).children@ + o.children@
                &&& forall|q: int|
                    q != cp && q != ip && pre.has_task(q) ==> post.task_of(q)
                        == (TaskControlBlock {
                        parent: if pre.task_of(q).parent == Some(o.pid) {
                            Some(pre.task_of(ip).pid)
                        } else {
                            pre.task_of(q).parent
                        },
                        ..pre.task_of(q)
                    })
            }
        }),
    ensures
        post.wf(),
{
    let s = post.tasks@;
    let sp = pre.tasks@;
    let cp = pre.cur_pid();
    let ip = pre.init_pid.unwrap() as int;
    let o = pre.cur_task();
    assert(pre.has_task(cp));
    assert(pre.has_task(ip));
    assert(o.pid == cp);
    assert(pre.task_of(ip).pid == ip);
    assert(pre.task_of(ip).parent is None);
    assert(o.wf()) by {
        let k = tseq_idx(sp, cp);
        assert(sp[k].wf());
    }
    assert(pre.task_of(ip).wf()) by {
        let k = tseq_idx(sp, ip);
        assert(sp[k].wf());
    }
    assert(ip <= cp) by {
        let k = tseq_idx(sp, cp);
        assert(pre.init_pid.unwrap() <= sp[k].pid);
    }
    // each pre child of the exiting task is live, distinct from cp and ip
    assert forall|x: usize| cp != ip && #[trigger] o.children@.contains(x) implies pre.has_task(
        x as int,
    ) && x as int != cp && x as int != ip && pre.task_of(x as int).parent == Some(o.pid) by {
        let k = tseq_idx(sp, cp);
        assert(sp[k] == o);
        assert(sp[k].children@.contains(x));
        assert(tseq_has(sp, x as int));
        let kx = tseq_idx(sp, x as int);
        assert(0 <= kx < sp.len() && sp[kx].pid == x);
        assert(sp[kx].children@ == sp[kx].children@);
        assert(sp[k].children@.contains(sp[kx].pid));
        assert(sp[kx].parent == Some(sp[k].pid));
        if x as int == cp {
            assert(sp[kx] == o && o.parent == Some(o.pid));
            assert(o.parent.unwrap() < o.pid);
            assert(false);
        }
        if x as int == ip {
            assert(sp[kx] == pre.task_of(ip));
            assert(false);
        }
    }
    // membership in the merged children list of the initial task
    assert(cp != ip ==> forall|x: usize|
        #[trigger] post.task_of(ip).children@.contains(x) <==> (pre.task_of(
            ip,
        ).children@.contains(x) || o.children@.contains(x))) by {
        if cp != ip {
            let a = post.task_of(ip).children@;
            let b = pre.task_of(ip).children@;
            let c = o.children@;
            assert(a == b + c);
            assert forall|x: usize| #[trigger] a.contains(x) <==> (b.contains(x) || c.contains(
                x,
            )) by {
                if a.contains(x) {
                    let i2 = choose|i2: int| 0 <= i2 < a.len() && a[i2] == x;
                    if i2 < b.len() {
                        assert(b[i2] == x);
                    } else {
                        assert(c[i2 - b.len()] == x);
                    }
                }
                if b.contains(x) {
                    let i2 = choose|i2: int| 0 <= i2 < b.len() && b[i2] == x;
                    assert(a[i2] == x);
                }
                if c.contains(x) {
                    let i2 = choose|i2: int| 0 <= i2 < c.len() && c[i2] == x;
                    assert(a[b.len() + i2] == x);
                }
            }
        }
    }
    assert(post.tasks_wf()) by {
        assert forall|i: int| 0 <= i < s.len() implies (#[trigger] s[i]).wf() && s[i].pid
            < post.next_pid && s[i].create_time <= post.now_us by {
            let q = s[i].pid;
            assert(tseq_has(s, q as int));
            assert(tseq_idx(s, q as int) == i);
            assert(s[i] == post.task_of(q as int));
            assert(pre.has_task(q as int));
            let k = tseq_idx(sp, q as int);
            assert(0 <= k < sp.len() && sp[k].pid == q && sp[k] == pre.task_of(q as int));
            assert(sp[k].wf());
            if cp == ip {
            } else if q as int == cp {
            } else if q as int == ip {
                let a = post.task_of(ip).children@;
                let b = pre.task_of(ip).children@;
                let c = o.children@;
                assert(a == b + c);
                assert(s[i].wf()) by {
                    assert forall|i1: int, j1: int| 0 <= i1 < j1 < a.len() implies a[i1]
                        != a[j1] by {
                        if j1 < b.len() {
                            assert(a[i1] == b[i1] && a[j1] == b[j1]);
                        } else if i1 >= b.len() {
                            assert(a[i1] == c[i1 - b.len()] && a[j1] == c[j1 - b.len()]);
                            assert(o.wf());
                        } else {
                            assert(a[i1] == b[i1] && a[j1] == c[j1 - b.len()]);
                            if b[i1] == c[j1 - b.len()] {
                                let x = b[i1];
                                assert(b.contains(x) && c.contains(x));
                                assert(pre.task_of(x as int).parent == Some(o.pid));
                                let ki = tseq_idx(sp, ip);
                                assert(sp[ki] == pre.task_of(ip));
                                assert(sp[ki].children@.contains(x));
                                assert(tseq_has(sp, x as int));
                                let kx = tseq_idx(sp, x as int);
                                assert(sp[ki].children@.contains(sp[kx].pid));
                                assert(sp[kx].parent == Some(sp[ki].pid));
                                assert(Some(sp[ki].pid) == Some(o.pid));
                                assert(ip == cp);
                                assert(false);
                            }
                        }
                    }
                    assert forall|i1: int| 0 <= i1 < a.len() implies #[trigger] a[i1]
                        < PID_LIMIT by {
                        if i1 < b.len() {
                            assert(a[i1] == b[i1]);
                        } else {
                            assert(a[i1] == c[i1 - b.len()]);
                            assert(o.wf());
                        }
                    }
                }
            } else {
                assert(s[i].wf()) by {
                    if sp[k].parent == Some(o.pid) {
                        assert(s[i].parent == Some(pre.task_of(ip).pid));
                        assert(ip < q) by {
                            assert(o.children@.contains(sp[k].pid)) by {
                                let kc = tseq_idx(sp, cp);
                                assert(sp[kc] == o);
                                assert(sp[kc].children@.contains(sp[k].pid));
                            }
                            assert(pre.has_task(q as int));
                            assert(q as int != ip);
                            assert(ip <= q) by {
                                assert(pre.init_pid.unwrap() <= sp[k].pid);
                            }
                        }
                    }
                }
            }
        }
    }
    assert(post.running_wf()) by {
        assert forall|i: int| 0 <= i < s.len() implies ((#[trigger] s[i].status) is Running
            <==> post.processor.current == Some(s[i].pid)) by {
            let q = s[i].pid;
            assert(tseq_has(s, q as int));
            assert(tseq_idx(s, q as int) == i);
            assert(s[i] == post.task_of(q as int));
            assert(pre.has_task(q as int));
            let k = tseq_idx(sp, q as int);
            assert(0 <= k < sp.len() && sp[k].pid == q && sp[k] == pre.task_of(q as int));
            if q as int == cp {
                assert(s[i].status is Zombie);
            } else {
                assert(s[i].status == sp[k].status);
                assert(sp[k].status is Running <==> pre.processor.current == Some(sp[k].pid));
            }
        }
    }
    assert(post.ready_wf()) by {
        assert forall|k: int| 0 <= k < post.manager.ready@.len() implies {
            let e = #[trigger] post.manager.ready@[k];
            &&& post.has_task(e.pid as int)
            &&& post.task_of(e.pid as int).status is Ready
            &&& e.stride == post.task_of(e.pid as int).stride
            &&& e.priority == post.task_of(e.pid as int).priority
        } by {
            let e = pre.manager.ready@[k];
            assert(post.manager.ready@[k] == e);
            assert(pre.has_task(e.pid as int));
            assert(e.pid as int != cp) by {
                if e.pid as int == cp {
                    assert(pre.task_of(cp).status is Ready);
                    assert(pre.cur_task().status is Running);
                }
            }
            assert(post.task_of(e.pid as int).status == pre.task_of(e.pid as int).status
                && post.task_of(e.pid as int).stride == pre.task_of(e.pid as int).stride
                && post.task_of(e.pid as int).priority == pre.task_of(e.pid as int).priority)
                by {
                if cp == ip {
                } else if e.pid as int == ip {
                } else {
                }
            }
        }
    }
    assert(post.tree_wf()) by {
        assert forall|i: int, c: usize|
            0 <= i < s.len() && (#[trigger] s[i].children@.contains(c)) implies tseq_has(
            s,
            c as int,
        ) by {
            let q = s[i].pid;
            assert(tseq_has(s, q as int));
            assert(tseq_idx(s, q as int) == i);
            assert(s[i] == post.task_of(q as int));
            assert(pre.has_task(q as int));
            let k = tseq_idx(sp, q as int);
            assert(sp[k] == pre.task_of(q as int) && sp[k].pid == q);
            if cp == ip {
                assert(s[i].children@ == sp[k].children@);
                assert(sp[k].children@.contains(c));
                assert(tseq_has(sp, c as int));
                assert(pre.has_task(c as int) && post.has_task(c as int));
            } else if q as int == cp {
                assert(s[i].children@.len() == 0);
                assert(false);
            } else if q as int == ip {
                assert(pre.task_of(ip).children@.contains(c) || o.children@.contains(c));
                if pre.task_of(ip).children@.contains(c) {
                    let ki = tseq_idx(sp, ip);
                    assert(sp[ki] == pre.task_of(ip));
                    assert(sp[ki].children@.contains(c));
                    assert(tseq_has(sp, c as int));
                } else {
                    assert(pre.has_task(c as int));
                }
                assert(pre.has_task(c as int) && post.has_task(c as int));
            } else {
                assert(s[i].children@ == sp[k].children@);
                assert(sp[k].children@.contains(c));
                assert(tseq_has(sp, c as int));
                assert(pre.has_task(c as int) && post.has_task(c as int));
            }
        }
        assert forall|i: int, j: int|
            0 <= i < s.len() && 0 <= j < s.len() && (#[trigger] s[i].children@.contains(
                s[j].pid,
            )) implies s[j].parent == Some(s[i].pid) by {
            let qi = s[i].pid;
            let qj = s[j].pid;
            assert(tseq_has(s, qi as int) && tseq_has(s, qj as int));
            assert(tseq_idx(s, qi as int) == i && tseq_idx(s, qj as int) == j);
            assert(pre.has_task(qi as int) && pre.has_task(qj as int));
            let ki = tseq_idx(sp, qi as int);
            let kj = tseq_idx(sp, qj as int);
            assert(sp[ki] == pre.task_of(qi as int) && sp[ki].pid == qi);
            assert(sp[kj] == pre.task_of(qj as int) && sp[kj].pid == qj);
            if cp == ip {
                assert(s[i].children@ == sp[ki].children@);
                assert(sp[ki].children@.contains(sp[kj].pid));
                assert(sp[kj].parent == Some(sp[ki].pid));
                assert(s[j].parent == sp[kj].parent);
            } else if qi as int == cp {
                assert(s[i].children@.len() == 0);
                assert(false);
            } else if qi as int == ip {
                if pre.task_of(ip).children@.contains(qj) {
                    assert(sp[ki].children@.contains(sp[kj].pid));
                    assert(sp[kj].parent == Some(sp[ki].pid));
                    assert(sp[kj].parent == Some(pre.task_of(ip).pid));
                    if qj as int == cp {
                        assert(sp[kj] == o);
                        assert(s[j] == post.task_of(cp));
                        assert(s[j].parent == o.parent);
                    } else {
                        assert(qj as int != ip);
                        assert(sp[kj].parent != Some(o.pid)) by {
                            if sp[kj].parent == Some(o.pid) {
                                assert(sp[ki].pid == o.pid);
                                assert(qi as int == cp);
                            }
                        }
                        assert(s[j].parent == sp[kj].parent);
                    }
                } else {
                    assert(o.children@.contains(qj));
                    assert(qj as int != cp && qj as int != ip);
                    assert(pre.task_of(qj as int).parent == Some(o.pid));
                    assert(s[j].parent == Some(pre.task_of(ip).pid));
                    assert(pre.task_of(ip).pid == qi);
                }
            } else {
                assert(s[i].children@ == sp[ki].children@);
                assert(sp[ki].children@.contains(sp[kj].pid));
                assert(sp[kj].parent == Some(sp[ki].pid));
                if qj as int == cp {
                    assert(sp[kj] == o);
                    assert(s[j].parent == o.parent);
                    assert(s[j].parent == Some(sp[ki].pid));
                } else if qj as int == ip {
                    assert(sp[kj].parent is None);
                    assert(false);
                } else {
                    assert(sp[kj].parent != Some(o.pid)) by {
                        if sp[kj].parent == Some(o.pid) {
                            assert(sp[ki].pid == o.pid);
                            assert(qi as int == cp);
                        }
                    }
                    assert(s[j].parent == sp[kj].parent);
                }
            }
        }
        assert forall|i: int, j: int|
            #![trigger s[i].pid, s[j].parent]
            0 <= i < s.len() && 0 <= j < s.len() && s[j].parent == Some(s[i].pid) implies s[i]
                .children@.contains(s[j].pid) by {
            let qi = s[i].pid;
            let qj = s[j].pid;
            assert(tseq_has(s, qi as int) && tseq_has(s, qj as int));
            assert(tseq_idx(s, qi as int) == i && tseq_idx(s, qj as int) == j);
            assert(pre.has_task(qi as int) && pre.has_task(qj as int));
            let ki = tseq_idx(sp, qi as int);
            let kj = tseq_idx(sp, qj as int);
            assert(sp[ki] == pre.task_of(qi as int) && sp[ki].pid == qi);
            assert(sp[kj] == pre.task_of(qj as int) && sp[kj].pid == qj);
            if cp == ip {
                assert(s[j].parent == sp[kj].parent);
                assert(sp[kj].parent == Some(sp[ki].pid));
                assert(sp[ki].children@.contains(sp[kj].pid));
                assert(s[i].children@ == sp[ki].children@);
            } else if qj as int == cp {
                assert(s[j].parent == o.parent);
                assert(sp[kj] == o);
                assert(sp[kj].parent == Some(sp[ki].pid));
                assert(sp[ki].children@.contains(sp[kj].pid));
                assert(qi as int != cp) by {
                    if qi as int == cp {
                        assert(o.parent == Some(o.pid));
                        assert(o.parent.unwrap() < o.pid);
                    }
                }
                if qi as int == ip {
                    assert(pre.task_of(ip).children@.contains(qj));
                    assert(post.task_of(ip).children@.contains(qj));
                    assert(s[i] == post.task_of(ip as int));
                } else {
                    assert(s[i].children@ == sp[ki].children@);
                }
            } else if qj as int == ip {
                assert(s[j].parent == sp[kj].parent);
                assert(sp[kj].parent is None);
                assert(false);
            } else {
                if sp[kj].parent == Some(o.pid) {
                    assert(s[j].parent == Some(pre.task_of(ip).pid));
                    assert(qi as int == ip) by {
                        assert(Some(s[i].pid) == Some(pre.task_of(ip).pid));
                        assert(tseq_unique(s));
                        let ki2 = tseq_idx(s, ip);
                        assert(s[ki2].pid == pre.task_of(ip).pid);
                        assert(ki2 == i);
                    }
                    assert(o.children@.contains(qj)) by {
                        let kc = tseq_idx(sp, cp);
                        assert(sp[kc] == o && sp[kc].pid == o.pid);
                        assert(sp[kj].parent == Some(sp[kc].pid));
                        assert(sp[kc].children@.contains(sp[kj].pid));
                    }
                    assert(post.task_of(ip).children@.contains(qj));
                    assert(s[i] == post.task_of(ip as int));
                } else {
                    assert(s[j].parent == sp[kj].parent);
                    assert(sp[kj].parent == Some(sp[ki].pid));
                    assert(sp[ki].children@.contains(sp[kj].pid));
                    assert(qi as int != cp) by {
                        if qi as int == cp {
                            assert(sp[ki].pid == o.pid);
                            assert(sp[kj].parent == Some(o.pid));
                        }
                    }
                    if qi as int == ip {
                        assert(pre.task_of(ip).children@.contains(qj));
                        assert(post.task_of(ip).children@.contains(qj));
                        assert(s[i] == post.task_of(ip as int));
                    } else {
                        assert(s[i].children@ == sp[ki].children@);
                    }
                }
            }
        }
        assert forall|j: int|
            0 <= j < s.len() && (#[trigger] s[j].parent) is Some implies tseq_has(
            s,
            s[j].parent.unwrap() as int,
        ) by {
            let qj = s[j].pid;
            assert(tseq_has(s, qj as int));
            assert(tseq_idx(s, qj as int) == j);
            assert(pre.has_task(qj as int));
            let kj = tseq_idx(sp, qj as int);
            assert(sp[kj] == pre.task_of(qj as int) && sp[kj].pid == qj);
            if cp != ip && qj as int != cp && qj as int != ip && sp[kj].parent == Some(o.pid) {
                assert(s[j].parent == Some(pre.task_of(ip).pid));
                assert(pre.has_task(ip) && post.has_task(ip));
            } else {
                assert(s[j].parent == sp[kj].parent);
                assert(tseq_has(sp, sp[kj].parent.unwrap() as int));
                assert(pre.has_task(sp[kj].parent.unwrap() as int));
                assert(post.has_task(sp[kj].parent.unwrap() as int));
            }
        }
        assert forall|i: int|
            0 <= i < s.len() && (#[trigger] s[i].status) is Zombie && Some(s[i].pid)
                != post.init_pid implies s[i].children@.len() == 0 by {
            let qi = s[i].pid;
            assert(tseq_has(s, qi as int));
            assert(tseq_idx(s, qi as int) == i);
            assert(pre.has_task(qi as int));
            let ki = tseq_idx(sp, qi as int);
            assert(sp[ki] == pre.task_of(qi as int) && sp[ki].pid == qi);
            if qi as int == cp {
                if cp == ip {
                    assert(Some(s[i].pid) == pre.init_pid);
                    assert(false);
                } else {
                    assert(s[i].children@.len() == 0);
                }
            } else if cp != ip && qi as int == ip {
                assert(Some(s[i].pid) == pre.init_pid);
                assert(false);
            } else {
                assert(s[i].children@ == sp[ki].children@);
                assert(s[i].status == sp[ki].status);
                assert(sp[ki].status is Zombie && Some(sp[ki].pid) != pre.init_pid);
            }
        }
    }
    assert(post.init_wf()) by {
        let p = pre.init_pid.unwrap();
        assert(pre.has_task(p as int) && post.has_task(p as int));
        assert(post.task_of(p as int).parent is None) by {
            if cp == ip {
                if p as int == cp {
                    assert(post.task_of(cp).parent == o.parent);
                }
            } else {
                if p as int == ip {
                }
            }
        }
        assert forall|i: int| 0 <= i < s.len() implies p <= (#[trigger] s[i].pid) by {
            let q = s[i].pid;
            assert(tseq_has(s, q as int));
            assert(pre.has_task(q as int));
            let k = tseq_idx(sp, q as int);
            assert(0 <= k < sp.len() && sp[k].pid == q);
            assert(p <= sp[k].pid);
        }
    }
    assert(post.apps_wf());
}


/// The kernel invariant survives `waitpid`'s reap: a Zombie child of the
/// current task leaves its parent's children and the task table at once,
/// so nothing refers to it afterwards.
#[verifier::rlimit(100)]
pub proof fn lemma_wf_after_reap(pre: Kernel, post: Kernel, c: usize, k: int)
    requires
        pre.wf(),
        pre.has_current(),
        0 <= k < pre.cur_task().children@.len(),
        pre.cur_task().children@[k] == c,
        pre.has_task(c as int),
        pre.task_of(c as int).status is Zombie,
        post.processor == pre.processor,
        post.manager.ready@ == pre.manager.ready@,
        post.next_pid == pre.next_pid,
        post.init_pid == pre.init_pid,
        post.apps@ == pre.apps@,
        post.now_us == pre.now_us,
        tseq_unique(post.tasks@),
        post.tasks@.len() == pre.tasks@.len() - 1,
        !post.has_task(c as int),
        forall|q: int| q != c ==> (post.has_task(q) <==> pre.has_task(q)),
        post.has_task(pre.cur_pid()),
        post.task_of(pre.cur_pid()) == (TaskControlBlock {
            children: post.task_of(pre.cur_pid()).children,
            ..pre.cur_task()
        }),
        post.task_of(pre.cur_pid()).children@ == pre.cur_task().children@.remove(k),
        forall|q: int|
            q != pre.cur_pid() && q != c && pre.has_task(q) ==> post.task_of(q) == pre.task_of(
                q,
            ),
    ensures
        post.wf(),
{
    let s = post.tasks@;
    let sp = pre.tasks@;
    let cp = pre.cur_pid();
    let o = pre.cur_task();
    assert(pre.has_task(cp));
    assert(o.pid == cp);
    assert(o.wf()) by {
        let kk = tseq_idx(sp, cp);
        assert(sp[kk].wf());
    }
    assert(o.children@.contains(c));
    // the reaped child: a Zombie child of the current task, not the
    // initial task, with no children and no task naming it as parent
    assert(c as int != cp) by {
        if c as int == cp {
            let kk = tseq_idx(sp, cp);
            assert(sp[kk].children@.contains(sp[kk].pid));
            assert(sp[kk].parent == Some(sp[kk].pid));
            assert(sp[kk].wf());
        }
    }
    let kc = tseq_idx(sp, c as int);
    assert(0 <= kc < sp.len() && sp[kc].pid == c && sp[kc] == pre.task_of(c as int));
    assert(sp[kc].parent == Some(o.pid)) by {
        let kk = tseq_idx(sp, cp);
        assert(sp[kk].children@.contains(sp[kc].pid));
    }
    assert(Some(c) != pre.init_pid) by {
        if Some(c) == pre.init_pid {
            assert(pre.task_of(c as int).parent is None);
        }
    }
    assert(sp[kc].children@.len() == 0);
    assert forall|q: int| pre.has_task(q) && pre.task_of(q).parent == Some(c) implies false by {
        let kq = tseq_idx(sp, q);
        assert(sp[kq].pid == q && sp[kq] == pre.task_of(q));
        assert(sp[kq].parent == Some(sp[kc].pid));
        assert(sp[kc].children@.contains(sp[kq].pid));
    }
    // membership after removing index k: same pids except c
    let ch2 = post.task_of(cp).children@;
    let ch1 = o.children@;
    assert(ch2 == ch1.remove(k));
    assert forall|x: usize| #[trigger] ch2.contains(x) implies ch1.contains(x) && x != c by {
        let i2 = choose|i2: int| 0 <= i2 < ch2.len() && ch2[i2] == x;
        if i2 < k {
            assert(ch1[i2] == x);
            if x == c {
                assert(ch1[i2] == ch1[k]);
                assert(o.wf());
            }
        } else {
            assert(ch1[i2 + 1] == x);
            if x == c {
                assert(ch1[i2 + 1] == ch1[k]);
                assert(o.wf());
            }
        }
    }
    assert forall|x: usize| ch1.contains(x) && x != c implies ch2.contains(x) by {
        let i1 = choose|i1: int| 0 <= i1 < ch1.len() && ch1[i1] == x;
        assert(i1 != k);
        if i1 < k {
            assert(ch2[i1] == x);
        } else {
            assert(ch2[i1 - 1] == x);
        }
    }
    assert(post.tasks_wf()) by {
        assert forall|i: int| 0 <= i < s.len() implies (#[trigger] s[i]).wf() && s[i].pid
            < post.next_pid && s[i].create_time <= post.now_us by {
            let q = s[i].pid;
            assert(tseq_has(s, q as int));
            assert(tseq_idx(s, q as int) == i);
            assert(s[i] == post.task_of(q as int));
            assert(q as int != c);
            assert(pre.has_task(q as int));
            let kq = tseq_idx(sp, q as int);
            assert(sp[kq].pid == q && sp[kq].wf() && sp[kq].pid < pre.next_pid
                && sp[kq].create_time <= pre.now_us);
            if q as int == cp {
                assert(s[i].wf()) by {
                    assert forall|i1: int, j1: int| 0 <= i1 < j1 < ch2.len() implies ch2[i1]
                        != ch2[j1] by {
                        let a1: int = if i1 < k {
                            i1
                        } else {
                            i1 + 1
                        };
                        let b1: int = if j1 < k {
                            j1
                        } else {
                            j1 + 1
                        };
                        assert(ch2[i1] == ch1[a1] && ch2[j1] == ch1[b1]);
                        assert(a1 < b1);
                        assert(o.wf());
                    }
                    assert forall|i1: int| 0 <= i1 < ch2.len() implies #[trigger] ch2[i1]
                        < PID_LIMIT by {
                        let a1: int = if i1 < k {
                            i1
                        } else {
                            i1 + 1
                        };
                        assert(ch2[i1] == ch1[a1]);
                        assert(o.wf());
                    }
                }
            }
        }
    }
    assert(post.running_wf()) by {
        if post.processor.current is Some {
            let p = post.processor.current.unwrap();
            assert(pre.has_task(p as int));
            assert(p as int == cp);
        }
        assert forall|i: int| 0 <= i < s.len() implies ((#[trigger] s[i].status) is Running
            <==> post.processor.current == Some(s[i].pid)) by {
            let q = s[i].pid;
            assert(tseq_has(s, q as int));
            assert(tseq_idx(s, q as int) == i);
            assert(s[i] == post.task_of(q as int));
            assert(q as int != c);
            assert(pre.has_task(q as int));
            let kq = tseq_idx(sp, q as int);
            assert(sp[kq].pid == q);
            assert(s[i].status == sp[kq].status);
            assert(sp[kq].status is Running <==> pre.processor.current == Some(sp[kq].pid));
        }
    }
    assert(post.ready_wf()) by {
        assert forall|k2: int| 0 <= k2 < post.manager.ready@.len() implies {
            let e = #[trigger] post.manager.ready@[k2];
            &&& post.has_task(e.pid as int)
            &&& post.task_of(e.pid as int).status is Ready
            &&& e.stride == post.task_of(e.pid as int).stride
            &&& e.priority == post.task_of(e.pid as int).priority
        } by {
            let e = pre.manager.ready@[k2];
            assert(post.manager.ready@[k2] == e);
            assert(pre.has_task(e.pid as int));
            assert(e.pid as int != c) by {
                if e.pid as int == c {
                    assert(pre.task_of(c as int).status is Ready);
                }
            }
            assert(e.pid as int != cp) by {
                if e.pid as int == cp {
                    assert(pre.task_of(cp).status is Ready);
                    assert(o.status is Running);
                }
            }
            assert(post.task_of(e.pid as int) == pre.task_of(e.pid as int));
        }
    }
    assert(post.tree_wf()) by {
        assert forall|i: int, cc: usize|
            0 <= i < s.len() && (#[trigger] s[i].children@.contains(cc)) implies tseq_has(
            s,
            cc as int,
        ) by {
            let q = s[i].pid;
            assert(tseq_has(s, q as int));
            assert(tseq_idx(s, q as int) == i);
            assert(s[i] == post.task_of(q as int));
            assert(q as int != c);
            assert(pre.has_task(q as int));
            let kq = tseq_idx(sp, q as int);
            assert(sp[kq].pid == q && sp[kq] == pre.task_of(q as int));
            if q as int == cp {
                assert(ch1.contains(cc) && cc != c);
                assert(sp[kq].children@.contains(cc));
                assert(tseq_has(sp, cc as int));
                assert(post.has_task(cc as int));
            } else {
                assert(s[i].children@ == sp[kq].children@);
                assert(sp[kq].children@.contains(cc));
                assert(tseq_has(sp, cc as int));
                assert(cc != c) by {
                    if cc == c {
                        assert(sp[kq].children@.contains(sp[kc].pid));
                        assert(sp[kc].parent == Some(sp[kq].pid));
                        assert(sp[kc].parent == Some(o.pid));
                        assert(sp[kq].pid == o.pid);
                        assert(q as int == cp);
                    }
                }
                assert(post.has_task(cc as int));
            }
        }
        assert forall|i: int, j: int|
            0 <= i < s.len() && 0 <= j < s.len() && (#[trigger] s[i].children@.contains(
                s[j].pid,
            )) implies s[j].parent == Some(s[i].pid) by {
            let qi = s[i].pid;
            let qj = s[j].pid;
            assert(tseq_has(s, qi as int) && tseq_has(s, qj as int));
            assert(tseq_idx(s, qi as int) == i && tseq_idx(s, qj as int) == j);
            assert(qi as int != c && qj as int != c);
            assert(pre.has_task(qi as int) && pre.has_task(qj as int));
            let ki = tseq_idx(sp, qi as int);
            let kj = tseq_idx(sp, qj as int);
            assert(sp[ki].pid == qi && sp[kj].pid == qj);
            assert(sp[ki].children@.contains(sp[kj].pid)) by {
                if qi as int == cp {
                    assert(ch2.contains(qj));
                    assert(ch1.contains(qj));
                } else {
                    assert(s[i].children@ == sp[ki].children@);
                }
            }
            assert(sp[kj].parent == Some(sp[ki].pid));
            assert(s[j].parent == sp[kj].parent);
        }
        assert forall|i: int, j: int|
            #![trigger s[i].pid, s[j].parent]
            0 <= i < s.len() && 0 <= j < s.len() && s[j].parent == Some(s[i].pid) implies s[i]
                .children@.contains(s[j].pid) by {
            let qi = s[i].pid;
            let qj = s[j].pid;
            assert(tseq_has(s, qi as int) && tseq_has(s, qj as int));
            assert(tseq_idx(s, qi as int) == i && tseq_idx(s, qj as int) == j);
            assert(qi as int != c && qj as int != c);
            assert(pre.has_task(qi as int) && pre.has_task(qj as int));
            let ki = tseq_idx(sp, qi as int);
            let kj = tseq_idx(sp, qj as int);
            assert(sp[ki].pid == qi && sp[kj].pid == qj);
            assert(s[j].parent == sp[kj].parent);
            assert(sp[kj].parent == Some(sp[ki].pid));
            assert(sp[ki].children@.contains(sp[kj].pid));
            if qi as int == cp {
                assert(ch1.contains(qj) && qj != c);
                assert(ch2.contains(qj));
            } else {
                assert(s[i].children@ == sp[ki].children@);
            }
        }
        assert forall|j: int|
            0 <= j < s.len() && (#[trigger] s[j].parent) is Some implies tseq_has(
            s,
            s[j].parent.unwrap() as int,
        ) by {
            let qj = s[j].pid;
            assert(tseq_has(s, qj as int));
            assert(tseq_idx(s, qj as int) == j);
            assert(qj as int != c);
            assert(pre.has_task(qj as int));
            let kj = tseq_idx(sp, qj as int);
            assert(sp[kj].pid == qj);
            assert(s[j].parent == sp[kj].parent);
            assert(tseq_has(sp, sp[kj].parent.unwrap() as int));
            assert(pre.has_task(sp[kj].parent.unwrap() as int));
            assert(sp[kj].parent.unwrap() as int != c) by {
                if sp[kj].parent.unwrap() as int == c {
                    assert(pre.task_of(qj as int).parent == Some(c));
                }
            }
            assert(post.has_task(sp[kj].parent.unwrap() as int));
        }
        assert forall|i: int|
            0 <= i < s.len() && (#[trigger] s[i].status) is Zombie && Some(s[i].pid)
                != post.init_pid implies s[i].children@.len() == 0 by {
            let qi = s[i].pid;
            assert(tseq_has(s, qi as int));
            assert(tseq_idx(s, qi as int) == i);
            assert(qi as int != c);
            assert(pre.has_task(qi as int));
            let ki = tseq_idx(sp, qi as int);
            assert(sp[ki].pid == qi);
            if qi as int == cp {
                assert(s[i].status == o.status);
                assert(o.status is Running);
                assert(false);
            } else {
                assert(s[i].children@ == sp[ki].children@ && s[i].status == sp[ki].status);
                assert(sp[ki].status is Zombie && Some(sp[ki].pid) != pre.init_pid);
            }
        }
    }
    assert(post.init_wf()) by {
        if post.init_pid is Some {
            let p = post.init_pid.unwrap();
            assert(pre.has_task(p as int));
            assert(p as int != c);
            assert(post.has_task(p as int));
            assert(post.task_of(p as int).parent == pre.task_of(p as int).parent) by {
                if p as int == cp {
                }
            }
            assert forall|i: int| 0 <= i < s.len() implies p <= (#[trigger] s[i].pid) by {
                let q = s[i].pid;
                assert(tseq_has(s, q as int));
                assert(q as int != c);
                assert(pre.has_task(q as int));
                let kq = tseq_idx(sp, q as int);
                assert(sp[kq].pid == q);
                assert(p <= sp[kq].pid);
            }
        } else {
            assert(pre.init_pid is None);
            assert(sp.len() > 0) by {
                assert(pre.has_task(cp));
                let kk = tseq_idx(sp, cp);
                assert(0 <= kk < sp.len());
            }
            assert(false);
        }
    }
    assert(post.apps_wf());
}

} // verus!
