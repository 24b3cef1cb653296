//! Process-control syscalls: the user-facing operations on tasks and
//! address spaces, each resolved against the current task and specified
//! by its effect on the kernel state and its sentinel return value.

use vstd::prelude::*;

use crate::codec::le_bytes;
use crate::codec::times_bytes_prefix;
use crate::kernel::lemma_task_push;
use crate::kernel::lemma_task_remove;
use crate::kernel::lemma_task_replace;
use crate::kernel::lemma_wf_after_current_update;
use crate::kernel::lemma_wf_after_task_create;
use crate::kernel::loaded_from;
use crate::kernel::tseq_at;
use crate::kernel::tseq_has;
use crate::kernel::tseq_idx;
use crate::kernel::tseq_unique;
use crate::kernel::Kernel;
use crate::manager::ReadyEntry;
use crate::mm::vpn_ceil;
use crate::mm::vpn_floor;
use crate::task::TaskControlBlock;
use crate::task::TaskStatus;
use crate::MAX_VA;
use crate::MAX_VPN;
use crate::PAGE_SIZE;
use crate::PID_LIMIT;

verus! {

/// Wall-clock reading split into whole seconds and the microsecond
/// remainder, as `get_time` writes it to the caller.
pub struct TimeVal {
    pub sec: usize,
    pub usec: usize,
}

/// What `task_info` reports of the current task: its status, its
/// per-syscall invocation counts, and its age in milliseconds.
pub struct TaskInfo {
    pub status: TaskStatus,
    pub syscall_times: Vec<u32>,
    pub time: usize,
}

/// Numeric code a task status is serialized as.
pub open spec fn spec_status_code(s: TaskStatus) -> u8 {
    match s {
        TaskStatus::Ready => 0,
        TaskStatus::Running => 1,
        TaskStatus::Zombie => 2,
    }
}

pub fn status_code(s: TaskStatus) -> (r: u8)
    ensures
        r == spec_status_code(s),
{
    match s {
        TaskStatus::Ready => 0,
        TaskStatus::Running => 1,
        TaskStatus::Zombie => 2,
    }
}

/// Byte encoding of a `TimeVal`: seconds then microseconds, eight
/// little-endian bytes each.
pub open spec fn timeval_bytes(sec: nat, usec: nat) -> Seq<u8> {
    le_bytes(sec, 8) + le_bytes(usec, 8)
}

/// Byte encoding of a `TaskInfo`: one status code byte, four bytes per
/// syscall counter, then eight bytes of age.
pub open spec fn taskinfo_bytes(status: TaskStatus, times: Seq<u32>, time: nat) -> Seq<u8> {
    seq![spec_status_code(status)] + times_bytes_prefix(times, times.len() as int)
        + le_bytes(time, 8)
}

/// Byte encoding of a `TimeVal` value.
pub fn encode_time_val(tv: &TimeVal) -> (r: Vec<u8>)
    ensures
        r@ == timeval_bytes(tv.sec as nat, tv.usec as nat),
{
    let mut r = crate::codec::usize_le_bytes(tv.sec);
    let mut rest = crate::codec::usize_le_bytes(tv.usec);
    let ghost a = r@;
    let ghost b = rest@;
    r.append(&mut rest);
    proof {
        assert(r@ == a + b);
    }
    r
}

/// Byte encoding of a `TaskInfo` value.
pub fn encode_task_info(ti: &TaskInfo) -> (r: Vec<u8>)
    ensures
        r@ == taskinfo_bytes(ti.status, ti.syscall_times@, ti.time as nat),
{
    let mut r: Vec<u8> = Vec::new();
    r.push(status_code(ti.status));
    let mut times = crate::codec::times_le_bytes(&ti.syscall_times);
    let ghost a = r@;
    let ghost b = times@;
    r.append(&mut times);
    proof {
        assert(a =~= seq![spec_status_code(ti.status)]);
        assert(r@ == a + b);
    }
    let mut age = crate::codec::usize_le_bytes(ti.time);
    let ghost c = r@;
    let ghost d = age@;
    r.append(&mut age);
    proof {
        assert(r@ == c + d);
        assert(r@ =~= taskinfo_bytes(ti.status, ti.syscall_times@, ti.time as nat));
    }
    r
}

/// Whether the arguments of `mmap` pass validation: permission bits
/// within and not all outside the low three (exactly `1 <= port <= 7`),
/// a page-aligned start, and a range below the highest address.
pub open spec fn mmap_valid(start: int, len: int, port: int) -> bool {
    &&& 1 <= port <= 7
    &&& start % (PAGE_SIZE as int) == 0
    &&& start + len <= MAX_VA
}

/// Permission bits a mapping gets from `port`: the low three bits
/// shifted into the page-table's R/W/X positions, plus user access.
pub open spec fn mmap_perm(port: int) -> u8 {
    (port * 2 + 16) as u8
}

impl Kernel {
    /// Pid of the calling task.
    pub fn sys_getpid(&self) -> (r: isize)
        requires
            self.wf(),
            self.has_current(),
        ensures
            r as int == self.cur_pid(),
    {
        let p = self.processor.current.unwrap();
        proof {
            assert(self.has_task(p as int));
            let k = tseq_idx(self.tasks@, p as int);
            assert(0 <= k < self.tasks@.len() && self.tasks@[k].pid == p);
            assert((p as int) < PID_LIMIT);
        }
        p as isize
    }

    /// Update the caller's scheduling priority: returns the new priority,
    /// or -1, changing nothing, when it is below the minimum of 2.
    pub fn sys_set_priority(&mut self, prio: isize) -> (r: isize)
        requires
            old(self).wf(),
            old(self).has_current(),
        ensures
            final(self).wf(),
            final(self).has_current() && final(self).cur_pid() == old(self).cur_pid(),
            final(self).manager.ready@ == old(self).manager.ready@,
            final(self).processor == old(self).processor,
            final(self).same_admin(*old(self)),
            final(self).same_tasks_except(*old(self), old(self).cur_pid()),
            prio <= 1 ==> r == -1 && final(self).cur_task() == old(self).cur_task(),
            prio >= 2 ==> r == prio && final(self).cur_task() == (TaskControlBlock {
                priority: prio as usize,
                ..old(self).cur_task()
            }),
    {
        if prio <= 1 {
            return -1;
        }
        self.set_task_priority(prio as usize);
        prio
    }

    /// Grow or shrink the caller's heap by `size` bytes: returns the old
    /// program break, or -1, changing nothing, when the new break would
    /// fall below the heap bottom or past the highest address.
    pub fn sys_sbrk(&mut self, size: i32) -> (r: isize)
        requires
            old(self).wf(),
            old(self).has_current(),
        ensures
            final(self).wf(),
            final(self).has_current() && final(self).cur_pid() == old(self).cur_pid(),
            final(self).manager.ready@ == old(self).manager.ready@,
            final(self).processor == old(self).processor,
            final(self).same_admin(*old(self)),
            final(self).same_tasks_except(*old(self), old(self).cur_pid()),
            ({
                let m1 = old(self).cur_task().memory_set;
                let nb = m1.program_brk + size as int;
                if m1.heap_bottom <= nb <= MAX_VA {
                    let m2 = final(self).cur_task().memory_set;
                    &&& r as int == m1.program_brk
                    &&& final(self).cur_task() == (TaskControlBlock {
                        memory_set: m2,
                        ..old(self).cur_task()
                    })
                    &&& m2.frames@ == m1.frames@
                    &&& m2.heap_bottom == m1.heap_bottom
                    &&& m2.program_brk == nb
                } else {
                    r == -1 && final(self).cur_task() == old(self).cur_task()
                }
            }),
    {
        let ghost pre = *self;
        let idx = self.current_index();
        let mut t = self.tasks.swap_remove(idx);
        let got = t.memory_set.change_program_brk(size);
        let ghost tg = t;
        proof {
            lemma_task_replace(pre.tasks@, idx as int, tg);
        }
        self.tasks.push(t);
        proof {
            assert(self.tasks@ == pre.tasks@.update(idx as int, pre.tasks@.last()).drop_last()
                .push(tg));
            assert(pre.tasks@[idx as int].wf());
            assert(pre.cur_task().memory_set.program_brk <= MAX_VA);
            assert(tg.wf());
            lemma_wf_after_current_update(pre, *self);
            assert(self.cur_task() == tg);
        }
        match got {
            Some(old_brk) => old_brk as isize,
            None => -1,
        }
    }

    /// Map `len` bytes of fresh zero-filled memory at `start` with the
    /// access bits of `port`; validation failures and any overlap with
    /// an existing mapping return -1 and change nothing.
    pub fn sys_mmap(&mut self, start: usize, len: usize, port: usize) -> (r: isize)
        requires
            old(self).wf(),
            old(self).has_current(),
        ensures
            final(self).wf(),
            final(self).has_current() && final(self).cur_pid() == old(self).cur_pid(),
            final(self).manager.ready@ == old(self).manager.ready@,
            final(self).processor == old(self).processor,
            final(self).same_admin(*old(self)),
            final(self).same_tasks_except(*old(self), old(self).cur_pid()),
            r == 0 || r == -1,
            ({
                let m1 = old(self).cur_task().memory_set;
                let sv = vpn_floor(start as int);
                let ev = vpn_ceil(start as int + len as int);
                &&& (r == 0 <==> mmap_valid(start as int, len as int, port as int)
                    && m1.range_free(sv, ev))
                &&& r == -1 ==> final(self).cur_task() == old(self).cur_task()
                &&& r == 0 ==> ({
                    let m2 = final(self).cur_task().memory_set;
                    &&& final(self).cur_task() == (TaskControlBlock {
                        memory_set: m2,
                        ..old(self).cur_task()
                    })
                    &&& m2.heap_bottom == m1.heap_bottom
                    &&& m2.program_brk == m1.program_brk
                    &&& forall|v: int|
                        sv <= v < ev ==> m2.is_mapped(v) && m2.perm_at(v) == mmap_perm(
                            port as int,
                        ) && crate::mm::is_zero_page(m2.frame_at(v).bytes@)
                    &&& forall|v: int|
                        !(sv <= v < ev) ==> (m2.is_mapped(v) <==> m1.is_mapped(v))
                    &&& forall|v: int|
                        !(sv <= v < ev) && m1.is_mapped(v) ==> m2.frame_at(v) == m1.frame_at(v)
                })
            }),
    {
        if port == 0 || port > 7 {
            return -1;
        }
        if start % PAGE_SIZE != 0 {
            return -1;
        }
        if start > MAX_VA || len > MAX_VA - start {
            return -1;
        }
        let svpn = start / PAGE_SIZE;
        let evpn = (start + len + (PAGE_SIZE - 1)) / PAGE_SIZE;
        proof {
            vstd::arithmetic::div_mod::lemma_div_is_ordered(
                start as int,
                start as int + len as int + (PAGE_SIZE - 1),
                PAGE_SIZE as int,
            );
            vstd::arithmetic::div_mod::lemma_div_is_ordered(
                start as int + len as int + (PAGE_SIZE - 1),
                MAX_VA as int + (PAGE_SIZE - 1),
                PAGE_SIZE as int,
            );
            assert((MAX_VA as int + (PAGE_SIZE - 1)) / (PAGE_SIZE as int) == MAX_VPN as int);
        }
        let idx = self.current_index();
        if !self.tasks[idx].memory_set.is_range_free(svpn, evpn) {
            return -1;
        }
        let perm: u8 = (port * 2 + 16) as u8;
        self.current_insert_framed_area(svpn, evpn, perm);
        0
    }

    /// Unmap the pages covering `[start, start + len)`: -1, changing
    /// nothing, when `start` is unaligned, the range runs past the
    /// highest address, or any page in it is unmapped; all-or-nothing.
    pub fn sys_munmap(&mut self, start: usize, len: usize) -> (r: isize)
        requires
            old(self).wf(),
            old(self).has_current(),
        ensures
            final(self).wf(),
            final(self).has_current() && final(self).cur_pid() == old(self).cur_pid(),
            final(self).manager.ready@ == old(self).manager.ready@,
            final(self).processor == old(self).processor,
            final(self).same_admin(*old(self)),
            final(self).same_tasks_except(*old(self), old(self).cur_pid()),
            r == 0 || r == -1,
            ({
                let m1 = old(self).cur_task().memory_set;
                let sv = vpn_floor(start as int);
                let ev = vpn_ceil(start as int + len as int);
                &&& (r == 0 <==> start as int % (PAGE_SIZE as int) == 0 && start as int
                    + len as int <= MAX_VA && m1.range_mapped(sv, ev))
                &&& r == -1 ==> final(self).cur_task() == old(self).cur_task()
                &&& r == 0 ==> ({
                    let m2 = final(self).cur_task().memory_set;
                    &&& final(self).cur_task() == (TaskControlBlock {
                        memory_set: m2,
                        ..old(self).cur_task()
                    })
                    &&& m2.heap_bottom == m1.heap_bottom
                    &&& m2.program_brk == m1.program_brk
                    &&& forall|v: int| sv <= v < ev ==> !m2.is_mapped(v)
                    &&& forall|v: int| !(sv <= v < ev) ==> (m2.is_mapped(v) <==> m1.is_mapped(v))
                    &&& forall|v: int|
                        !(sv <= v < ev) && m1.is_mapped(v) ==> m2.frame_at(v) == m1.frame_at(v)
                })
            }),
    {
        if start % PAGE_SIZE != 0 {
            return -1;
        }
        if start > MAX_VA || len > MAX_VA - start {
            return -1;
        }
        self.unmap_the_area(start, len)
    }

    /// Give up the CPU: the caller returns to Ready, re-enters the ready
    /// queue, and the processor goes idle for the dispatch loop.
    pub fn sys_yield(&mut self) -> (r: isize)
        requires
            old(self).wf(),
            old(self).has_current(),
        ensures
            final(self).wf(),
            r == 0,
            !final(self).has_current(),
            final(self).same_admin(*old(self)),
            final(self).same_tasks_except(*old(self), old(self).cur_pid()),
            final(self).has_task(old(self).cur_pid()),
            final(self).task_of(old(self).cur_pid()) == (TaskControlBlock {
                status: TaskStatus::Ready,
                ..old(self).cur_task()
            }),
            final(self).manager.ready@ == old(self).manager.ready@.push(
                (ReadyEntry {
                    pid: old(self).cur_task().pid,
                    stride: old(self).cur_task().stride,
                    priority: old(self).cur_task().priority,
                }),
            ),
    {
        let ghost pre = *self;
        let idx = self.current_index();
        let mut t = self.tasks.swap_remove(idx);
        t.status = TaskStatus::Ready;
        let entry = ReadyEntry { pid: t.pid, stride: t.stride, priority: t.priority };
        let ghost tg = t;
        proof {
            lemma_task_replace(pre.tasks@, idx as int, tg);
        }
        self.tasks.push(t);
        let _ = self.processor.take_current();
        self.manager.add(entry);
        proof {
            let cp = pre.cur_pid();
            assert(self.tasks@ == pre.tasks@.update(idx as int, pre.tasks@.last()).drop_last()
                .push(tg));
            assert(tg.wf());
            assert(self.task_of(cp) == tg);
            assert(self.tasks_wf()) by {
                crate::kernel::lemma_tasks_wf_preserved(pre, *self);
            }
            assert(self.tree_wf()) by {
                crate::kernel::lemma_tree_wf_preserved(pre, *self);
            }
            assert(self.init_wf()) by {
                crate::kernel::lemma_init_wf_preserved(pre, *self);
            }
            assert(self.running_wf()) by {
                assert forall|i: int| 0 <= i < self.tasks@.len() implies ((
                #[trigger] self.tasks@[i].status) is Running <==> self.processor.current == Some(
                    self.tasks@[i].pid,
                )) by {
                    let q = self.tasks@[i].pid;
                    assert(tseq_has(self.tasks@, q as int));
                    assert(tseq_idx(self.tasks@, q as int) == i);
                    assert(self.tasks@[i] == self.task_of(q as int));
                    if q as int == cp {
                        assert(self.tasks@[i] == tg);
                    } else {
                        assert(pre.has_task(q as int));
                        let k = tseq_idx(pre.tasks@, q as int);
                        assert(0 <= k < pre.tasks@.len() && pre.tasks@[k].pid == q);
                        assert(pre.tasks@[k].status is Running <==> pre.processor.current
                            == Some(pre.tasks@[k].pid));
                        assert(self.tasks@[i].status == pre.tasks@[k].status);
                    }
                }
            }
            assert(self.ready_wf()) by {
                let rd = self.manager.ready@;
                let rdp = pre.manager.ready@;
                assert forall|k: int| 0 <= k < rd.len() implies {
                    let e = #[trigger] rd[k];
                    &&& self.has_task(e.pid as int)
                    &&& self.task_of(e.pid as int).status is Ready
                    &&& e.stride == self.task_of(e.pid as int).stride
                    &&& e.priority == self.task_of(e.pid as int).priority
                } by {
                    if k < rdp.len() {
                        let e = rdp[k];
                        assert(rd[k] == e);
                        assert(pre.has_task(e.pid as int));
                        assert(e.pid as int != cp) by {
                            if e.pid as int == cp {
                                assert(pre.task_of(cp).status is Ready);
                                assert(pre.cur_task().status is Running);
                            }
                        }
                        assert(self.task_of(e.pid as int) == pre.task_of(e.pid as int));
                    } else {
                        assert(rd[k] == entry);
                        assert(self.task_of(cp) == tg);
                    }
                }
                assert forall|k: int, l: int| 0 <= k < l < rd.len() implies rd[k].pid
                    != rd[l].pid by {
                    if l < rdp.len() {
                        assert(rd[k] == rdp[k] && rd[l] == rdp[l]);
                    } else {
                        assert(rd[l] == entry);
                        assert(rd[k] == rdp[k]);
                        assert(pre.has_task(rdp[k].pid as int));
                        assert(rdp[k].pid as int != cp) by {
                            if rdp[k].pid as int == cp {
                                assert(pre.task_of(cp).status is Ready);
                                assert(pre.cur_task().status is Running);
                            }
                        }
                    }
                }
            }
            assert(self.wf());
        }
        0
    }
}

impl Kernel {
    /// Whether `path` points at a readable zero-terminated name in the
    /// caller's address space that resolves to a registered image.
    pub open spec fn path_resolves(self, path: int) -> bool {
        &&& self.cur_task().memory_set.has_cstr_at(path)
        &&& self.has_app(self.cur_task().memory_set.cstr_at(path))
    }

    /// Duplicate the caller into a new child task: same address-space
    /// contents and TCB fields, a fresh pid, the saved return-value
    /// register forced to 0, registered once in the caller's children
    /// and pushed to the ready queue.  The parent receives the child's
    /// pid.
    pub fn sys_fork(&mut self) -> (r: isize)
        requires
            old(self).wf(),
            old(self).has_current(),
            old(self).next_pid < PID_LIMIT,
        ensures
            final(self).wf(),
            ({
                let cp = old(self).cur_pid();
                let child = old(self).next_pid;
                &&& r == child as isize
                &&& child as int != cp
                &&& final(self).has_task(child as int)
                &&& ({
                    let c = final(self).task_of(child as int);
                    let o = old(self).cur_task();
                    &&& c.status is Ready
                    &&& c.parent == Some(o.pid)
                    &&& c.children@.len() == 0
                    &&& c.priority == o.priority
                    &&& c.stride == o.stride
                    &&& c.syscall_times@ == o.syscall_times@
                    &&& c.exit_code == 0
                    &&& c.create_time == old(self).now_us
                    &&& c.trap_cx.x@ == o.trap_cx.x@.update(crate::task::RET_REG as int, 0usize)
                    &&& c.trap_cx.sepc == o.trap_cx.sepc
                    &&& forall|v: int|
                        c.memory_set.is_mapped(v) <==> o.memory_set.is_mapped(v)
                    &&& forall|v: int|
                        o.memory_set.is_mapped(v) ==> c.memory_set.frame_at(v).info()
                            == o.memory_set.frame_at(v).info()
                    &&& c.memory_set.heap_bottom == o.memory_set.heap_bottom
                    &&& c.memory_set.program_brk == o.memory_set.program_brk
                })
                &&& final(self).has_current() && final(self).cur_pid() == cp
                &&& final(self).cur_task() == (TaskControlBlock {
                    children: final(self).cur_task().children,
                    ..old(self).cur_task()
                })
                &&& final(self).cur_task().children@ == old(self).cur_task().children@.push(child)
                &&& !old(self).cur_task().children@.contains(child)
                &&& final(self).manager.ready@ == old(self).manager.ready@.push(
                    (ReadyEntry {
                        pid: child,
                        stride: old(self).cur_task().stride,
                        priority: old(self).cur_task().priority,
                    }),
                )
                &&& final(self).next_pid == old(self).next_pid + 1
                &&& final(self).init_pid == old(self).init_pid
                &&& final(self).processor == old(self).processor
                &&& final(self).apps@ == old(self).apps@
                &&& final(self).now_us == old(self).now_us
                &&& forall|q: int|
                    q != cp && q != child ==> (final(self).has_task(q) <==> old(self).has_task(
                        q,
                    ))
                &&& forall|q: int|
                    q != cp && q != child && old(self).has_task(q) ==> final(self).task_of(q)
                        == old(self).task_of(q)
            }),
    {
        let ghost pre = *self;
        let ghost cp = pre.cur_pid();
        let idx = self.current_index();
        let child_pid = self.next_pid;
        proof {
            assert(pre.tasks@[idx as int].wf());
        }
        let par = &self.tasks[idx];
        let ms = par.memory_set.duplicate();
        let mut trap = par.trap_cx.duplicate();
        trap.x.set(crate::task::RET_REG, 0);
        let times = crate::dup_vec(&par.syscall_times);
        let par_priority = par.priority;
        let par_stride = par.stride;
        let c = TaskControlBlock {
            pid: child_pid,
            status: TaskStatus::Ready,
            priority: par.priority,
            stride: par.stride,
            create_time: self.now_us,
            syscall_times: times,
            exit_code: 0,
            memory_set: ms,
            trap_cx: trap,
            task_cx: crate::task::TaskContext::zero_init(),
            parent: Some(par.pid),
            children: Vec::new(),
        };
        let ghost cg = c;
        let mut t = self.tasks.swap_remove(idx);
        t.children.push(child_pid);
        let ghost tg = t;
        proof {
            lemma_task_replace(pre.tasks@, idx as int, tg);
        }
        self.tasks.push(t);
        let ghost mid = *self;
        proof {
            assert(mid.tasks@ == pre.tasks@.update(idx as int, pre.tasks@.last()).drop_last()
                .push(tg));
            assert(!tseq_has(mid.tasks@, child_pid as int)) by {
                if tseq_has(mid.tasks@, child_pid as int) {
                    if child_pid as int == cp {
                        assert(pre.has_task(cp));
                        let k = tseq_idx(pre.tasks@, cp);
                        assert(pre.tasks@[k].pid < pre.next_pid);
                        assert(false);
                    } else {
                        assert(pre.has_task(child_pid as int));
                        let k = tseq_idx(pre.tasks@, child_pid as int);
                        assert(0 <= k < pre.tasks@.len() && pre.tasks@[k].pid == child_pid);
                        assert(pre.tasks@[k].pid < pre.next_pid);
                        assert(false);
                    }
                }
            }
            lemma_task_push(mid.tasks@, cg);
        }
        self.tasks.push(c);
        self.next_pid = child_pid + 1;
        self.manager.add(
            ReadyEntry { pid: child_pid, stride: par_stride, priority: par_priority },
        );
        proof {
            assert(self.tasks@ == mid.tasks@.push(cg));
            assert(cg.wf());
            assert(self.task_of(child_pid as int) == cg);
            assert(self.has_task(cp) && self.task_of(cp) == tg) by {
                assert(tseq_has(mid.tasks@, cp) && tseq_at(mid.tasks@, cp) == tg);
            }
            assert(!pre.cur_task().children@.contains(child_pid)) by {
                if pre.cur_task().children@.contains(child_pid) {
                    let k = tseq_idx(pre.tasks@, cp);
                    assert(pre.tasks@[k].children@.contains(child_pid));
                    assert(tseq_has(pre.tasks@, child_pid as int));
                    let k2 = tseq_idx(pre.tasks@, child_pid as int);
                    assert(0 <= k2 < pre.tasks@.len() && pre.tasks@[k2].pid == child_pid);
                    assert(pre.tasks@[k2].pid < pre.next_pid);
                    assert(false);
                }
            }
            assert forall|q: int| q != cp && q != child_pid implies (self.has_task(q)
                <==> pre.has_task(q)) by {
                assert(tseq_has(mid.tasks@, q) <==> tseq_has(pre.tasks@, q));
            }
            assert forall|q: int|
                q != cp && q != child_pid && pre.has_task(q) implies self.task_of(q)
                    == pre.task_of(q) by {
                assert(tseq_at(mid.tasks@, q) == tseq_at(pre.tasks@, q));
                assert(self.task_of(q) == tseq_at(mid.tasks@, q));
            }
            assert(tg == (TaskControlBlock { children: tg.children, ..pre.cur_task() }));
            assert(tg.children@ == pre.cur_task().children@.push(child_pid));
            assert(!(pre.task_of(cp).status is Zombie));
            lemma_wf_after_task_create(pre, *self, cg);
            assert((child_pid as int) < PID_LIMIT);
        }
        child_pid as isize
    }

    /// Replace the caller's address space and trap context in place with
    /// a fresh load of the named image; pid, parent and children are
    /// preserved.  0 on success, -1 when the path does not resolve.
    pub fn sys_exec(&mut self, path: usize) -> (r: isize)
        requires
            old(self).wf(),
            old(self).has_current(),
        ensures
            final(self).wf(),
            final(self).has_current() && final(self).cur_pid() == old(self).cur_pid(),
            final(self).manager.ready@ == old(self).manager.ready@,
            final(self).processor == old(self).processor,
            final(self).same_admin(*old(self)),
            final(self).same_tasks_except(*old(self), old(self).cur_pid()),
            r == 0 <==> old(self).path_resolves(path as int),
            r == 0 || r == -1,
            r == -1 ==> final(self).cur_task() == old(self).cur_task(),
            r == 0 ==> ({
                let image = old(self).app_image(
                    old(self).cur_task().memory_set.cstr_at(path as int),
                );
                let t = final(self).cur_task();
                &&& t == (TaskControlBlock {
                    memory_set: t.memory_set,
                    trap_cx: t.trap_cx,
                    ..old(self).cur_task()
                })
                &&& loaded_from(t.memory_set, image)
                &&& t.trap_cx.sepc == image.entry
                &&& forall|i: int| 0 <= i < crate::task::REG_COUNT ==> t.trap_cx.x@[i] == 0
            }),
    {
        let ghost pre = *self;
        let idx = self.current_index();
        let name_opt = self.tasks[idx].memory_set.read_cstr(path);
        if name_opt.is_none() {
            return -1;
        }
        let name = name_opt.unwrap();
        proof {
            if pre.cur_task().memory_set.has_cstr_at(path as int) {
                pre.cur_task().memory_set.lemma_cstr_unique(
                    path as int,
                    name@,
                    pre.cur_task().memory_set.cstr_at(path as int),
                );
            }
        }
        let ai_opt = self.find_app(&name);
        if ai_opt.is_none() {
            return -1;
        }
        let ai = ai_opt.unwrap();
        let ms = crate::kernel::build_memory_set(&self.apps[ai].image);
        let entry_pc = self.apps[ai].image.entry;
        let mut t = self.tasks.swap_remove(idx);
        t.memory_set = ms;
        t.trap_cx = crate::task::TrapContext::app_init_context(entry_pc);
        let ghost tg = t;
        proof {
            lemma_task_replace(pre.tasks@, idx as int, tg);
        }
        self.tasks.push(t);
        proof {
            assert(self.tasks@ == pre.tasks@.update(idx as int, pre.tasks@.last()).drop_last()
                .push(tg));
            assert(pre.tasks@[idx as int].wf());
            assert(tg.wf());
            lemma_wf_after_current_update(pre, *self);
            assert(self.cur_task() == tg);
        }
        0
    }

    /// Create a new task directly from the named image — no copy of the
    /// caller's memory — register it as the caller's child and queue it.
    /// The new pid, or -1 when the path does not resolve.
    pub fn sys_spawn(&mut self, path: usize) -> (r: isize)
        requires
            old(self).wf(),
            old(self).has_current(),
            old(self).next_pid < PID_LIMIT,
        ensures
            final(self).wf(),
            final(self).has_current() && final(self).cur_pid() == old(self).cur_pid(),
            final(self).processor == old(self).processor,
            final(self).apps@ == old(self).apps@,
            final(self).now_us == old(self).now_us,
            final(self).init_pid == old(self).init_pid,
            !old(self).path_resolves(path as int) ==> r == -1 && final(self).tasks@ == old(self).tasks@ && final(self).manager.ready@ == old(self).manager.ready@ && final(self).next_pid == old(self).next_pid,
            old(self).path_resolves(path as int) ==> ({
                let cp = old(self).cur_pid();
                let child = old(self).next_pid;
                let image = old(self).app_image(
                    old(self).cur_task().memory_set.cstr_at(path as int),
                );
                &&& r == child as isize
                &&& final(self).has_task(child as int)
                &&& ({
                    let c = final(self).task_of(child as int);
                    &&& c.status is Ready
                    &&& c.parent == Some(old(self).cur_task().pid)
                    &&& c.children@.len() == 0
                    &&& c.priority == crate::DEFAULT_PRIORITY
                    &&& c.stride == 0
                    &&& c.exit_code == 0
                    &&& c.create_time == old(self).now_us
                    &&& c.trap_cx.sepc == image.entry
                    &&& loaded_from(c.memory_set, image)
                })
                &&& final(self).cur_task() == (TaskControlBlock {
                    children: final(self).cur_task().children,
                    ..old(self).cur_task()
                })
                &&& final(self).cur_task().children@ == old(self).cur_task().children@.push(child)
                &&& final(self).manager.ready@ == old(self).manager.ready@.push(
                    (ReadyEntry { pid: child, stride: 0, priority: crate::DEFAULT_PRIORITY }),
                )
                &&& final(self).next_pid == old(self).next_pid + 1
                &&& forall|q: int|
                    q != cp && q != child ==> (final(self).has_task(q) <==> old(self).has_task(
                        q,
                    ))
                &&& forall|q: int|
                    q != cp && q != child && old(self).has_task(q) ==> final(self).task_of(q)
                        == old(self).task_of(q)
            }),
    {
        let ghost pre = *self;
        let ghost cp = pre.cur_pid();
        let idx = self.current_index();
        let name_opt = self.tasks[idx].memory_set.read_cstr(path);
        if name_opt.is_none() {
            return -1;
        }
        let name = name_opt.unwrap();
        proof {
            if pre.cur_task().memory_set.has_cstr_at(path as int) {
                pre.cur_task().memory_set.lemma_cstr_unique(
                    path as int,
                    name@,
                    pre.cur_task().memory_set.cstr_at(path as int),
                );
            }
        }
        let ai_opt = self.find_app(&name);
        if ai_opt.is_none() {
            return -1;
        }
        let ai = ai_opt.unwrap();
        let ms = crate::kernel::build_memory_set(&self.apps[ai].image);
        let entry_pc = self.apps[ai].image.entry;
        let child_pid = self.next_pid;
        let par_pid = self.tasks[idx].pid;
        let c = TaskControlBlock {
            pid: child_pid,
            status: TaskStatus::Ready,
            priority: crate::DEFAULT_PRIORITY,
            stride: 0,
            create_time: self.now_us,
            syscall_times: TaskControlBlock::fresh_syscall_times(),
            exit_code: 0,
            memory_set: ms,
            trap_cx: crate::task::TrapContext::app_init_context(entry_pc),
            task_cx: crate::task::TaskContext::zero_init(),
            parent: Some(par_pid),
            children: Vec::new(),
        };
        let ghost cg = c;
        let mut t = self.tasks.swap_remove(idx);
        t.children.push(child_pid);
        let ghost tg = t;
        proof {
            lemma_task_replace(pre.tasks@, idx as int, tg);
        }
        self.tasks.push(t);
        let ghost mid = *self;
        proof {
            assert(mid.tasks@ == pre.tasks@.update(idx as int, pre.tasks@.last()).drop_last()
                .push(tg));
            assert(!tseq_has(mid.tasks@, child_pid as int)) by {
                if tseq_has(mid.tasks@, child_pid as int) {
                    if child_pid as int == cp {
                        assert(pre.has_task(cp));
                        let k = tseq_idx(pre.tasks@, cp);
                        assert(pre.tasks@[k].pid < pre.next_pid);
                        assert(false);
                    } else {
                        assert(pre.has_task(child_pid as int));
                        let k = tseq_idx(pre.tasks@, child_pid as int);
                        assert(0 <= k < pre.tasks@.len() && pre.tasks@[k].pid == child_pid);
                        assert(pre.tasks@[k].pid < pre.next_pid);
                        assert(false);
                    }
                }
            }
            lemma_task_push(mid.tasks@, cg);
        }
        self.tasks.push(c);
        self.next_pid = child_pid + 1;
        self.manager.add(
            ReadyEntry { pid: child_pid, stride: 0, priority: crate::DEFAULT_PRIORITY },
        );
        proof {
            assert(self.tasks@ == mid.tasks@.push(cg));
            assert(pre.tasks@[idx as int].wf());
            assert(cg.wf());
            assert(self.task_of(child_pid as int) == cg);
            assert(self.has_task(cp) && self.task_of(cp) == tg) by {
                assert(tseq_has(mid.tasks@, cp) && tseq_at(mid.tasks@, cp) == tg);
            }
            assert forall|q: int|
                q != cp && q != child_pid && pre.has_task(q) implies self.task_of(q)
                    == pre.task_of(q) by {
                assert(tseq_at(mid.tasks@, q) == tseq_at(pre.tasks@, q));
                assert(self.task_of(q) == tseq_at(mid.tasks@, q));
            }
            assert(tg == (TaskControlBlock { children: tg.children, ..pre.cur_task() }));
            assert(tg.children@ == pre.cur_task().children@.push(child_pid));
            assert(!(pre.task_of(cp).status is Zombie));
            lemma_wf_after_task_create(pre, *self, cg);
            assert((child_pid as int) < PID_LIMIT);
        }
        child_pid as isize
    }
}

impl Kernel {
    /// Terminate the caller: its status becomes Zombie with `exit_code`
    /// recorded, the processor goes idle, and its children are handed to
    /// the initial task (which keeps them when the caller is the initial
    /// task itself).  The caller never runs again; only `waitpid` by its
    /// parent releases the record.
    #[verifier::spinoff_prover]
    #[verifier::rlimit(100)]
    pub fn sys_exit(&mut self, exit_code: i32)
        requires
            old(self).wf(),
            old(self).has_current(),
        ensures
            final(self).wf(),
            !final(self).has_current(),
            final(self).manager.ready@ == old(self).manager.ready@,
            final(self).same_admin(*old(self)),
            old(self).init_pid is Some,
            forall|q: int| final(self).has_task(q) <==> old(self).has_task(q),
            ({
                let cp = old(self).cur_pid();
                let ip = old(self).init_pid.unwrap() as int;
                let o = old(self).cur_task();
                if cp == ip {
                    &&& final(self).task_of(cp) == (TaskControlBlock {
                        status: TaskStatus::Zombie,
                        exit_code: exit_code,
                        ..o
                    })
                    &&& forall|q: int|
                        q != cp && old(self).has_task(q) ==> final(self).task_of(q) == old(self).task_of(q)
                } else {
                    &&& final(self).task_of(cp) == (TaskControlBlock {
                        status: TaskStatus::Zombie,
                        exit_code: exit_code,
                        children: final(self).task_of(cp).children,
                        ..o
                    })
                    &&& final(self).task_of(cp).children@.len() == 0
                    &&& final(self).task_of(ip) == (TaskControlBlock {
                        children: final(self).task_of(ip).children,
                        ..old(self).task_of(ip)
                    })
                    &&& final(self).task_of(ip).children@ == old(self).task_of(ip).children@
                        + o.children@
                    &&& forall|q: int|
                        q != cp && q != ip && old(self).has_task(q) ==> final(self).task_of(q)
                            == (TaskControlBlock {
                            parent: if old(self).task_of(q).parent == Some(o.pid) {
                                Some(old(self).task_of(ip).pid)
                            } else {
                                old(self).task_of(q).parent
                            },
                            ..old(self).task_of(q)
                        })
                }
            }),
    {
        let ghost pre = *self;
        let ghost cp = pre.cur_pid();
        proof {
            assert(pre.has_task(cp));
            let k = tseq_idx(pre.tasks@, cp);
            assert(0 <= k < pre.tasks@.len());
            assert(pre.tasks@.len() > 0);
            assert(pre.init_pid is Some);
        }
        let ip = self.init_pid.unwrap();
        let ghost ipg = ip as int;
        let idx = self.current_index();
        let cp_pid = self.tasks[idx].pid;
        proof {
            assert(pre.has_task(ipg));
            assert(pre.task_of(ipg).pid == ip);
            assert(pre.task_of(ipg).parent is None);
            assert forall|x: usize|
                cp != ipg && #[trigger] pre.cur_task().children@.contains(x) implies
                pre.has_task(x as int) && x as int != cp && x as int != ipg && pre.task_of(
                x as int,
            ).parent == Some(cp_pid) by {
                let o = pre.cur_task();
                let k = tseq_idx(pre.tasks@, cp);
                assert(pre.tasks@[k] == o);
                assert(pre.tasks@[k].children@.contains(x));
                assert(tseq_has(pre.tasks@, x as int));
                let kx = tseq_idx(pre.tasks@, x as int);
                assert(0 <= kx < pre.tasks@.len() && pre.tasks@[kx].pid == x);
                assert(pre.tasks@[k].children@.contains(pre.tasks@[kx].pid));
                assert(pre.tasks@[kx].parent == Some(pre.tasks@[k].pid));
                if x as int == cp {
                    assert(pre.tasks@[kx] == o && o.parent == Some(o.pid));
                    assert(pre.tasks@[kx].wf());
                    assert(false);
                }
                if x as int == ipg {
                    assert(pre.tasks@[kx] == pre.task_of(ipg));
                    assert(false);
                }
            }
        }
        let mut t = self.tasks.swap_remove(idx);
        if cp_pid == ip {
            t.status = TaskStatus::Zombie;
            t.exit_code = exit_code;
            let ghost tg = t;
            proof {
                lemma_task_replace(pre.tasks@, idx as int, tg);
            }
            self.tasks.push(t);
            let _ = self.processor.take_current();
            proof {
                assert(self.tasks@ == pre.tasks@.update(idx as int, pre.tasks@.last())
                    .drop_last().push(tg));
                assert(self.task_of(cp) == tg);
                crate::kernel::lemma_wf_after_exit(pre, *self, exit_code);
            }
            return;
        }
        let kids = t.children;
        let t2 = TaskControlBlock {
            status: TaskStatus::Zombie,
            exit_code,
            children: Vec::new(),
            pid: t.pid,
            priority: t.priority,
            stride: t.stride,
            create_time: t.create_time,
            syscall_times: t.syscall_times,
            memory_set: t.memory_set,
            trap_cx: t.trap_cx,
            task_cx: t.task_cx,
            parent: t.parent,
        };
        let ghost tg = t2;
        proof {
            lemma_task_replace(pre.tasks@, idx as int, tg);
        }
        self.tasks.push(t2);
        let ghost kidsg = kids@;
        proof {
            assert(kidsg == pre.cur_task().children@);
            assert(self.task_of(cp) == tg);
            assert(pre.cur_task().wf());
            assert forall|k: int, l: int| 0 <= k < l < kidsg.len() implies kidsg[k]
                != kidsg[l] by {
                assert(pre.cur_task().children@[k] != pre.cur_task().children@[l]);
            }
            assert forall|k: int| 0 <= k < kidsg.len() implies pre.has_task(
                #[trigger] kidsg[k] as int,
            ) && kidsg[k] as int != cp && kidsg[k] as int != ipg && pre.task_of(
                kidsg[k] as int,
            ).parent == Some(cp_pid) by {
                assert(pre.cur_task().children@.contains(kidsg[k]));
            }
            assert(self.tasks_wf()) by {
                crate::kernel::lemma_tasks_wf_preserved(pre, *self);
            }
        }
        let n_kids = kids.len();
        let mut j: usize = 0;
        while j < n_kids
            invariant
                pre.wf(),
                pre.has_current(),
                cp == pre.cur_pid(),
                cp_pid as int == cp,
                pre.init_pid == Some(ip),
                ipg == ip as int,
                cp != ipg,
                pre.has_task(ipg),
                pre.task_of(ipg).pid == ip,
                n_kids == kidsg.len(),
                j <= n_kids,
                kids@ == kidsg,
                kidsg == pre.cur_task().children@,
                forall|k: int, l: int| 0 <= k < l < kidsg.len() ==> kidsg[k] != kidsg[l],
                forall|k: int|
                    0 <= k < kidsg.len() ==> pre.has_task(#[trigger] kidsg[k] as int)
                        && kidsg[k] as int != cp && kidsg[k] as int != ipg && pre.task_of(
                        kidsg[k] as int,
                    ).parent == Some(cp_pid),
                tg == (TaskControlBlock {
                    status: TaskStatus::Zombie,
                    exit_code: exit_code,
                    children: tg.children,
                    ..pre.cur_task()
                }),
                tg.children@.len() == 0,
                tg.wf(),
                self.manager == pre.manager,
                self.processor == pre.processor,
                self.next_pid == pre.next_pid,
                self.init_pid == pre.init_pid,
                self.apps == pre.apps,
                self.now_us == pre.now_us,
                tseq_unique(self.tasks@),
                self.tasks@.len() == pre.tasks@.len(),
                forall|q: int| self.has_task(q) <==> pre.has_task(q),
                self.task_of(cp) == tg,
                self.tasks_wf(),
                forall|k: int|
                    0 <= k < j ==> self.task_of(#[trigger] kidsg[k] as int)
                        == (TaskControlBlock {
                        parent: Some(ip),
                        ..pre.task_of(kidsg[k] as int)
                    }),
                forall|k: int|
                    j <= k < n_kids ==> self.task_of(#[trigger] kidsg[k] as int) == pre.task_of(
                        kidsg[k] as int,
                    ),
                forall|q: int|
                    q != cp && !kidsg.contains(q as usize) && pre.has_task(q) && 0 <= q
                        < PID_LIMIT ==> self.task_of(q) == pre.task_of(q),
            decreases n_kids - j,
        {
            let ghost stj = *self;
            let kid = kids[j];
            proof {
                assert(pre.has_task(kid as int));
                assert(self.has_task(kid as int));
            }
            let kidx = self.find_task_index(kid).unwrap();
            let mut kt = self.tasks.swap_remove(kidx);
            kt.parent = Some(ip);
            let ghost ktg = kt;
            proof {
                lemma_task_replace(stj.tasks@, kidx as int, ktg);
            }
            self.tasks.push(kt);
            proof {
                assert(self.tasks@ == stj.tasks@.update(kidx as int, stj.tasks@.last())
                    .drop_last().push(ktg));
                assert(stj.task_of(kid as int) == pre.task_of(kid as int));
                assert(ktg == (TaskControlBlock {
                    parent: Some(ip),
                    ..pre.task_of(kid as int)
                }));
                assert(ktg.wf()) by {
                    assert(pre.task_of(kid as int).wf()) by {
                        let kx = tseq_idx(pre.tasks@, kid as int);
                        assert(pre.tasks@[kx].wf());
                    }
                    assert(ip < kid) by {
                        let kx = tseq_idx(pre.tasks@, kid as int);
                        assert(pre.init_pid.unwrap() <= pre.tasks@[kx].pid);
                    }
                }
                assert(self.task_of(cp) == tg) by {
                    assert(tseq_at(self.tasks@, cp) == tseq_at(stj.tasks@, cp));
                }
                assert forall|k: int|
                    0 <= k < j + 1 implies self.task_of(#[trigger] kidsg[k] as int)
                        == (TaskControlBlock {
                        parent: Some(ip),
                        ..pre.task_of(kidsg[k] as int)
                    }) by {
                    if k == j {
                        assert(self.task_of(kid as int) == ktg);
                    } else {
                        assert(kidsg[k] != kid);
                        assert(tseq_at(self.tasks@, kidsg[k] as int) == tseq_at(
                            stj.tasks@,
                            kidsg[k] as int,
                        ));
                    }
                }
                assert forall|k: int|
                    j + 1 <= k < n_kids implies self.task_of(#[trigger] kidsg[k] as int)
                        == pre.task_of(kidsg[k] as int) by {
                    assert(kidsg[k] != kid);
                    assert(tseq_at(self.tasks@, kidsg[k] as int) == tseq_at(
                        stj.tasks@,
                        kidsg[k] as int,
                    ));
                }
                assert forall|q: int|
                    q != cp && !kidsg.contains(q as usize) && pre.has_task(q) && 0 <= q
                        < PID_LIMIT implies self.task_of(q) == pre.task_of(q) by {
                    assert(q != kid) by {
                        if q == kid {
                            assert(kidsg.contains(kidsg[j as int]));
                        }
                    }
                    assert(tseq_at(self.tasks@, q) == tseq_at(stj.tasks@, q));
                }
                assert(self.tasks_wf()) by {
                    crate::kernel::lemma_tasks_wf_preserved(stj, *self);
                }
            }
            j += 1;
        }
        let ghost stn = *self;
        proof {
            assert(self.has_task(ipg));
        }
        let iidx = self.find_task_index(ip).unwrap();
        let mut it = self.tasks.swap_remove(iidx);
        let mut kids_m = kids;
        it.children.append(&mut kids_m);
        let ghost itg = it;
        proof {
            lemma_task_replace(stn.tasks@, iidx as int, itg);
        }
        self.tasks.push(it);
        let _ = self.processor.take_current();
        proof {
            assert(self.tasks@ == stn.tasks@.update(iidx as int, stn.tasks@.last()).drop_last()
                .push(itg));
            assert(stn.task_of(ipg) == pre.task_of(ipg));
            assert(itg == (TaskControlBlock {
                children: itg.children,
                ..pre.task_of(ipg)
            }));
            assert(itg.children@ == pre.task_of(ipg).children@ + kidsg);
            assert(self.task_of(cp) == tg) by {
                assert(tseq_at(self.tasks@, cp) == tseq_at(stn.tasks@, cp));
            }
            assert(self.task_of(ipg) == itg);
            assert forall|q: int|
                q != cp && q != ipg && pre.has_task(q) implies self.task_of(q)
                    == (TaskControlBlock {
                    parent: if pre.task_of(q).parent == Some(cp_pid) {
                        Some(pre.task_of(ipg).pid)
                    } else {
                        pre.task_of(q).parent
                    },
                    ..pre.task_of(q)
                }) by {
                assert(0 <= q < PID_LIMIT) by {
                    let kq = tseq_idx(pre.tasks@, q);
                    assert(pre.tasks@[kq].wf() && pre.tasks@[kq].pid == q);
                }
                assert(self.task_of(q) == stn.task_of(q)) by {
                    assert(tseq_at(self.tasks@, q) == tseq_at(stn.tasks@, q));
                }
                if kidsg.contains(q as usize) {
                    let k = choose|k: int| 0 <= k < kidsg.len() && kidsg[k] == q as usize;
                    assert(stn.task_of(kidsg[k] as int) == (TaskControlBlock {
                        parent: Some(ip),
                        ..pre.task_of(kidsg[k] as int)
                    }));
                    assert(pre.task_of(q).parent == Some(cp_pid)) by {
                        assert(kidsg.contains(kidsg[k]));
                    }
                } else {
                    assert(stn.task_of(q) == pre.task_of(q));
                    assert(pre.task_of(q).parent != Some(cp_pid)) by {
                        if pre.task_of(q).parent == Some(cp_pid) {
                            let kq = tseq_idx(pre.tasks@, q);
                            let kc = tseq_idx(pre.tasks@, cp);
                            assert(pre.tasks@[kq].pid == q && pre.tasks@[kq] == pre.task_of(q));
                            assert(pre.tasks@[kc].pid == cp_pid && pre.tasks@[kc]
                                == pre.cur_task());
                            assert(pre.tasks@[kq].parent == Some(pre.tasks@[kc].pid));
                            assert(pre.tasks@[kc].children@.contains(pre.tasks@[kq].pid));
                            assert(kidsg.contains(q as usize));
                        }
                    }
                }
            }
            crate::kernel::lemma_wf_after_exit(pre, *self, exit_code);
        }
    }
}

/// Whether `pid` selects child pid `c`: -1 selects any child, a
/// non-negative value selects exactly that pid.
pub open spec fn pid_selects(pid: int, c: usize) -> bool {
    pid == -1 || pid == c as int
}

impl Kernel {
    /// Whether the caller has a child that `pid` selects.
    pub open spec fn has_matching_child(self, pid: int) -> bool {
        exists|c: usize| #[trigger] self.cur_task().children@.contains(c) && pid_selects(pid, c)
    }

    /// Whether the caller has a Zombie child that `pid` selects.
    pub open spec fn has_matching_zombie(self, pid: int) -> bool {
        exists|c: usize| #[trigger] self.cur_task().children@.contains(c) && pid_selects(pid, c)
            && self.task_of(c as int).status is Zombie
    }

    /// Scan `kids` (the caller's children) for `pid`: whether any child
    /// is selected, and the first selected Zombie child's index.
    fn scan_children(&self, pid: isize, kids: &Vec<usize>) -> (r: (bool, Option<usize>))
        requires
            self.wf(),
            forall|k: int| 0 <= k < kids@.len() ==> self.has_task(#[trigger] kids@[k] as int),
        ensures
            r.0 == exists|l: int|
                0 <= l < kids@.len() && pid_selects(pid as int, #[trigger] kids@[l]),
            match r.1 {
                Some(f) => {
                    &&& (f as int) < kids@.len()
                    &&& pid_selects(pid as int, kids@[f as int])
                    &&& self.task_of(kids@[f as int] as int).status is Zombie
                    &&& forall|l: int|
                        0 <= l < f ==> !(pid_selects(pid as int, #[trigger] kids@[l])
                            && self.task_of(kids@[l] as int).status is Zombie)
                },
                None => forall|l: int|
                    0 <= l < kids@.len() ==> !(pid_selects(pid as int, #[trigger] kids@[l])
                        && self.task_of(kids@[l] as int).status is Zombie),
            },
    {
        let n = kids.len();
        let mut any: bool = false;
        let mut i: usize = 0;
        while i < n
            invariant
                n == kids@.len(),
                i <= n,
                !any ==> forall|l: int|
                    0 <= l < i ==> !pid_selects(pid as int, #[trigger] kids@[l]),
                any ==> exists|l: int|
                    0 <= l < n && pid_selects(pid as int, #[trigger] kids@[l]),
            decreases n - i,
        {
            let c = kids[i];
            if pid == -1 || (pid >= 0 && pid as usize == c) {
                any = true;
                proof {
                    assert(pid_selects(pid as int, kids@[i as int]));
                }
            }
            i += 1;
        }
        let mut found: Option<usize> = None;
        let mut i: usize = 0;
        while i < n && found.is_none()
            invariant
                self.wf(),
                n == kids@.len(),
                i <= n,
                forall|k: int| 0 <= k < n ==> self.has_task(#[trigger] kids@[k] as int),
                found is None ==> forall|l: int|
                    0 <= l < i ==> !(pid_selects(pid as int, #[trigger] kids@[l])
                        && self.task_of(kids@[l] as int).status is Zombie),
                found matches Some(f) ==> i == f < n && pid_selects(pid as int, kids@[f as int])
                    && self.task_of(kids@[f as int] as int).status is Zombie && forall|l: int|
                    0 <= l < f ==> !(pid_selects(pid as int, #[trigger] kids@[l])
                        && self.task_of(kids@[l] as int).status is Zombie),
            decreases n - i, (if found is None { 1int } else { 0int }),
        {
            let c = kids[i];
            let mut advance: bool = true;
            if pid == -1 || (pid >= 0 && pid as usize == c) {
                let cidx = self.find_task_index(c).unwrap();
                let st = self.tasks[cidx].status;
                if st == TaskStatus::Zombie {
                    found = Some(i);
                    advance = false;
                    proof {
                        assert(self.task_of(c as int).status is Zombie);
                    }
                }
            }
            if advance {
                i += 1;
            }
        }
        (any, found)
    }

    /// Detach the Zombie child at position `k` of the caller's children
    /// and release its task record entirely.
    #[verifier::spinoff_prover]
    #[verifier::rlimit(60)]
    fn reap_child(&mut self, k: usize, c: usize)
        requires
            old(self).wf(),
            old(self).has_current(),
            (k as int) < old(self).cur_task().children@.len(),
            old(self).cur_task().children@[k as int] == c,
            old(self).has_task(c as int),
            old(self).task_of(c as int).status is Zombie,
        ensures
            final(self).wf(),
            final(self).has_current() && final(self).cur_pid() == old(self).cur_pid(),
            final(self).processor == old(self).processor,
            final(self).manager.ready@ == old(self).manager.ready@,
            final(self).same_admin(*old(self)),
            !final(self).has_task(c as int),
            final(self).cur_task() == (TaskControlBlock {
                children: final(self).cur_task().children,
                ..old(self).cur_task()
            }),
            final(self).cur_task().children@ == old(self).cur_task().children@.remove(k as int),
            forall|q: int|
                q != old(self).cur_pid() && q != c ==> (final(self).has_task(q) <==> old(self).has_task(q)),
            forall|q: int|
                q != old(self).cur_pid() && q != c && old(self).has_task(q) ==> final(self).task_of(q) == old(self).task_of(q),
    {
        let ghost mid = *self;
        let ghost cp = mid.cur_pid();
        let ghost kidsg = mid.cur_task().children@;
        let idx2 = self.current_index();
        let mut t = self.tasks.swap_remove(idx2);
        let _ = t.children.remove(k);
        let ghost tg = t;
        proof {
            lemma_task_replace(mid.tasks@, idx2 as int, tg);
        }
        self.tasks.push(t);
        let ghost mid2 = *self;
        proof {
            assert(mid2.task_of(cp) == tg);
            assert(tg.children@ == kidsg.remove(k as int));
            assert(tg.wf()) by {
                assert(mid.cur_task().wf());
                let ch1 = kidsg;
                let ch2 = tg.children@;
                assert forall|i1: int, j1: int| 0 <= i1 < j1 < ch2.len() implies ch2[i1]
                    != ch2[j1] by {
                    let a1: int = if i1 < k {
                        i1
                    } else {
                        i1 + 1
                    };
                    let b1: int = if j1 < k {
                        j1
                    } else {
                        j1 + 1
                    };
                    assert(ch2[i1] == ch1[a1] && ch2[j1] == ch1[b1]);
                }
                assert forall|i1: int| 0 <= i1 < ch2.len() implies #[trigger] ch2[i1]
                    < PID_LIMIT by {
                    let a1: int = if i1 < k {
                        i1
                    } else {
                        i1 + 1
                    };
                    assert(ch2[i1] == ch1[a1]);
                }
            }
            assert(mid2.tasks_wf()) by {
                crate::kernel::lemma_tasks_wf_preserved(mid, mid2);
            }
            assert(c as int != cp) by {
                if c as int == cp {
                    let kk = tseq_idx(mid.tasks@, cp);
                    assert(mid.tasks@[kk].children@.contains(mid.tasks@[kk].pid));
                    assert(mid.tasks@[kk].parent == Some(mid.tasks@[kk].pid));
                    assert(mid.tasks@[kk].wf());
                }
            }
            assert(mid2.has_task(c as int));
        }
        let cidx2 = self.find_task_index(c).unwrap();
        proof {
            lemma_task_remove(mid2.tasks@, cidx2 as int);
        }
        let _ = self.tasks.swap_remove(cidx2);
        proof {
            assert(self.tasks@ == mid2.tasks@.update(cidx2 as int, mid2.tasks@.last())
                .drop_last());
            assert(!self.has_task(c as int));
            assert(self.task_of(cp) == tg) by {
                assert(tseq_at(self.tasks@, cp) == tseq_at(mid2.tasks@, cp));
            }
            assert forall|q: int|
                q != cp && q != c && mid.has_task(q) implies self.task_of(q) == mid.task_of(
                q,
            ) by {
                assert(tseq_at(self.tasks@, q) == tseq_at(mid2.tasks@, q));
                assert(tseq_at(mid2.tasks@, q) == tseq_at(mid.tasks@, q));
            }
            assert(mid.cur_task().children@.contains(c)) by {
                assert(kidsg[k as int] == c);
            }
            crate::kernel::lemma_wf_after_reap(mid, *self, c, k as int);
        }
    }

}


/// What a successful reap leaves behind: the child at position `k` of
/// the caller's children — the first Zombie child `pid` selects — is
/// released entirely, its exit code stands at `ptr` in the caller's
/// memory, and nothing else changed.
pub open spec fn waitpid_reaped(
    pre: Kernel,
    post: Kernel,
    pid: int,
    ptr: int,
    r: int,
    k: int,
) -> bool {
    let children = pre.cur_task().children@;
    let c = children[k];
    &&& 0 <= k < children.len()
    &&& pid_selects(pid, c)
    &&& pre.task_of(c as int).status is Zombie
    &&& forall|l: int|
        0 <= l < k ==> !(pid_selects(pid, #[trigger] children[l]) && pre.task_of(
            children[l] as int,
        ).status is Zombie)
    &&& r == c as int
    &&& !post.has_task(c as int)
    &&& post.cur_task() == (TaskControlBlock {
        children: post.cur_task().children,
        memory_set: post.cur_task().memory_set,
        ..pre.cur_task()
    })
    &&& post.cur_task().children@ == children.remove(k)
    &&& ({
        let m1 = pre.cur_task().memory_set;
        let m2 = post.cur_task().memory_set;
        &&& m2.same_footprint(m1)
        &&& forall|b: int|
            0 <= b < 4 ==> #[trigger] m2.byte_at(ptr + b) == le_bytes(
                (pre.task_of(c as int).exit_code as u32) as nat,
                4,
            )[b]
        &&& m2.bytes_unchanged_outside(m1, ptr, 4)
    })
    &&& forall|q: int| q != pre.cur_pid() && q != c ==> (post.has_task(q) <==> pre.has_task(q))
    &&& forall|q: int|
        q != pre.cur_pid() && q != c && pre.has_task(q) ==> post.task_of(q) == pre.task_of(q)
}

/// Composing `waitpid`'s two steps — the exit-code write into the
/// caller's memory, then the reap of the chosen child — yields the
/// reaped relation between the outer states.
#[verifier::spinoff_prover]
proof fn lemma_waitpid_compose(
    pre: Kernel,
    mid: Kernel,
    post: Kernel,
    pid: int,
    ptr: int,
    k: int,
    c: usize,
)
    requires
        pre.has_current(),
        mid.has_current(),
        mid.cur_pid() == pre.cur_pid(),
        mid.cur_task() == (TaskControlBlock {
            memory_set: mid.cur_task().memory_set,
            ..pre.cur_task()
        }),
        ({
            let m1 = pre.cur_task().memory_set;
            let mw = mid.cur_task().memory_set;
            &&& mw.same_footprint(m1)
            &&& forall|b: int|
                0 <= b < 4 ==> #[trigger] mw.byte_at(ptr + b) == le_bytes(
                    (pre.task_of(c as int).exit_code as u32) as nat,
                    4,
                )[b]
            &&& mw.bytes_unchanged_outside(m1, ptr, 4)
        }),
        forall|q: int| q != pre.cur_pid() ==> (mid.has_task(q) <==> pre.has_task(q)),
        forall|q: int| q != pre.cur_pid() && pre.has_task(q) ==> mid.task_of(q) == pre.task_of(q),
        0 <= k < pre.cur_task().children@.len(),
        pre.cur_task().children@[k] == c,
        pid_selects(pid, c),
        pre.task_of(c as int).status is Zombie,
        forall|l: int|
            0 <= l < k ==> !(pid_selects(pid, #[trigger] pre.cur_task().children@[l])
                && pre.task_of(pre.cur_task().children@[l] as int).status is Zombie),
        c as int != pre.cur_pid(),
        post.has_current(),
        post.cur_pid() == mid.cur_pid(),
        !post.has_task(c as int),
        post.cur_task() == (TaskControlBlock {
            children: post.cur_task().children,
            ..mid.cur_task()
        }),
        post.cur_task().children@ == mid.cur_task().children@.remove(k),
        forall|q: int| q != mid.cur_pid() && q != c ==> (post.has_task(q) <==> mid.has_task(q)),
        forall|q: int|
            q != mid.cur_pid() && q != c && mid.has_task(q) ==> post.task_of(q) == mid.task_of(
                q,
            ),
    ensures
        waitpid_reaped(pre, post, pid, ptr, c as int, k),
{
    assert(mid.cur_task().children@ == pre.cur_task().children@);
    assert(post.cur_task().memory_set == mid.cur_task().memory_set);
    assert(post.cur_task() == (TaskControlBlock {
        children: post.cur_task().children,
        memory_set: post.cur_task().memory_set,
        ..pre.cur_task()
    }));
    assert forall|q: int| q != pre.cur_pid() && q != c implies (post.has_task(q)
        <==> pre.has_task(q)) by {}
    assert forall|q: int| q != pre.cur_pid() && q != c && pre.has_task(q) implies post.task_of(q)
        == pre.task_of(q) by {
        assert(mid.has_task(q));
        assert(mid.task_of(q) == pre.task_of(q));
    }
}

impl Kernel {
    /// Reap one exited child: with no child selected by `pid` returns -1;
    /// with selected children still Ready or Running returns -2; with a
    /// selected Zombie child, removes the first such child from the
    /// caller's children, releases its record entirely, writes its exit
    /// code to `exit_code_ptr` in the caller's address space, and
    /// returns its pid.  Strictly non-blocking: callers poll.
    #[verifier::spinoff_prover]
    #[verifier::rlimit(100)]
    pub fn sys_waitpid(&mut self, pid: isize, exit_code_ptr: usize) -> (r: isize)
        requires
            old(self).wf(),
            old(self).has_current(),
            old(self).has_matching_zombie(pid as int) ==> old(
                self,
            ).cur_task().memory_set.va_range_mapped(exit_code_ptr as int, 4),
        ensures
            final(self).wf(),
            final(self).has_current() && final(self).cur_pid() == old(self).cur_pid(),
            final(self).processor == old(self).processor,
            final(self).manager.ready@ == old(self).manager.ready@,
            final(self).same_admin(*old(self)),
            !old(self).has_matching_child(pid as int) ==> r == -1 && final(self).tasks@ == old(
                self,
            ).tasks@,
            old(self).has_matching_child(pid as int) && !old(self).has_matching_zombie(
                pid as int,
            ) ==> r == -2 && final(self).tasks@ == old(self).tasks@,
            old(self).has_matching_zombie(pid as int) ==> exists|k: int|
                waitpid_reaped(
                    *old(self),
                    *final(self),
                    pid as int,
                    exit_code_ptr as int,
                    r as int,
                    k,
                ),
    {
        let ghost pre = *self;
        let ghost cp = pre.cur_pid();
        let idx = self.current_index();
        let kids = crate::dup_vec(&self.tasks[idx].children);
        let ghost kidsg = kids@;
        let n = kids.len();
        proof {
            assert(kidsg == pre.cur_task().children@);
            assert(pre.cur_task().wf());
            assert forall|k: int| 0 <= k < n implies pre.has_task(#[trigger] kidsg[k] as int) by {
                assert(pre.cur_task().children@.contains(kidsg[k]));
                let kk = tseq_idx(pre.tasks@, cp);
                assert(pre.tasks@[kk].children@.contains(kidsg[k]));
                assert(tseq_has(pre.tasks@, kidsg[k] as int));
            }
        }
        let scanned = self.scan_children(pid, &kids);
        let any = scanned.0;
        let found = scanned.1;
        if !any {
            proof {
                if pre.has_matching_child(pid as int) {
                    let c = choose|c: usize|
                        #[trigger] pre.cur_task().children@.contains(c) && pid_selects(
                            pid as int,
                            c,
                        );
                    let l = choose|l: int| 0 <= l < kidsg.len() && kidsg[l] == c;
                    assert(pid_selects(pid as int, kidsg[l]));
                    assert(false);
                }
            }
            return -1;
        }
        if found.is_none() {
            proof {
                if pre.has_matching_zombie(pid as int) {
                    let c = choose|c: usize|
                        #[trigger] pre.cur_task().children@.contains(c) && pid_selects(
                            pid as int,
                            c,
                        ) && pre.task_of(c as int).status is Zombie;
                    let l = choose|l: int| 0 <= l < kidsg.len() && kidsg[l] == c;
                    assert(!(pid_selects(pid as int, kidsg[l]) && pre.task_of(
                        kidsg[l] as int,
                    ).status is Zombie));
                    assert(false);
                }
                let l = choose|l: int|
                    0 <= l < kidsg.len() && pid_selects(pid as int, #[trigger] kidsg[l]);
                assert(pre.cur_task().children@.contains(kidsg[l]));
                assert(pre.has_matching_child(pid as int));
            }
            return -2;
        }
        let k = found.unwrap();
        let c = kids[k];
        proof {
            assert(pre.cur_task().children@.contains(kidsg[k as int]));
            assert(pre.has_matching_zombie(pid as int));
            assert(c as int != cp) by {
                if c as int == cp {
                    let kk = tseq_idx(pre.tasks@, cp);
                    assert(pre.tasks@[kk].children@.contains(pre.tasks@[kk].pid));
                    assert(pre.tasks@[kk].parent == Some(pre.tasks@[kk].pid));
                    assert(pre.tasks@[kk].wf());
                }
            }
            assert((c as int) < PID_LIMIT) by {
                let kc = tseq_idx(pre.tasks@, c as int);
                assert(pre.tasks@[kc].wf() && pre.tasks@[kc].pid == c);
            }
        }
        let cidx = self.find_task_index(c).unwrap();
        let code = self.tasks[cidx].exit_code;
        let bytes = crate::codec::u32_le_bytes(code as u32);
        proof {
            crate::codec::lemma_le_bytes_len((code as u32) as nat, 4);
            assert(bytes@.len() == 4);
        }
        let ok = self.write_current_bytes(exit_code_ptr, &bytes);
        proof {
            assert(ok);
        }
        let ghost mid = *self;
        proof {
            assert(mid.cur_task().children@ == kidsg);
            assert(mid.task_of(c as int) == pre.task_of(c as int));
            assert(mid.has_task(c as int));
        }
        self.reap_child(k, c);
        proof {
            lemma_waitpid_compose(
                pre,
                mid,
                *self,
                pid as int,
                exit_code_ptr as int,
                k as int,
                c,
            );
        }
        c as isize
    }
}

impl Kernel {
    /// Write the clock reading, split into seconds and microseconds,
    /// into the caller-supplied buffer at `ts`, byte ranges resolved per
    /// page through address translation; -1, changing nothing, when the
    /// destination is not fully mapped.
    pub fn sys_get_time(&mut self, ts: usize, _tz: usize) -> (r: isize)
        requires
            old(self).wf(),
            old(self).has_current(),
        ensures
            final(self).wf(),
            final(self).has_current() && final(self).cur_pid() == old(self).cur_pid(),
            final(self).processor == old(self).processor,
            final(self).manager.ready@ == old(self).manager.ready@,
            final(self).same_admin(*old(self)),
            final(self).same_tasks_except(*old(self), old(self).cur_pid()),
            r == 0 <==> old(self).cur_task().memory_set.va_range_mapped(ts as int, 16),
            r == 0 || r == -1,
            r == -1 ==> final(self).cur_task() == old(self).cur_task(),
            r == 0 ==> ({
                let m1 = old(self).cur_task().memory_set;
                let m2 = final(self).cur_task().memory_set;
                let enc = timeval_bytes(
                    (old(self).now_us / 1_000_000) as nat,
                    (old(self).now_us % 1_000_000) as nat,
                );
                &&& final(self).cur_task() == (TaskControlBlock {
                    memory_set: m2,
                    ..old(self).cur_task()
                })
                &&& m2.same_footprint(m1)
                &&& forall|b: int| 0 <= b < 16 ==> #[trigger] m2.byte_at(ts + b) == enc[b]
                &&& m2.bytes_unchanged_outside(m1, ts as int, 16)
            }),
    {
        let tv = TimeVal { sec: self.now_us / 1_000_000, usec: self.now_us % 1_000_000 };
        let bytes = encode_time_val(&tv);
        proof {
            crate::codec::lemma_le_bytes_len(tv.sec as nat, 8);
            crate::codec::lemma_le_bytes_len(tv.usec as nat, 8);
            assert(bytes@.len() == 16);
        }
        let ok = self.write_current_bytes(ts, &bytes);
        if ok {
            0
        } else {
            -1
        }
    }

    /// Write the caller's status, per-syscall counts and age in
    /// milliseconds into the caller-supplied buffer at `ti`, byte ranges
    /// resolved per page through address translation; -1, changing
    /// nothing, when the destination is not fully mapped.
    pub fn sys_task_info(&mut self, ti: usize) -> (r: isize)
        requires
            old(self).wf(),
            old(self).has_current(),
        ensures
            final(self).wf(),
            final(self).has_current() && final(self).cur_pid() == old(self).cur_pid(),
            final(self).processor == old(self).processor,
            final(self).manager.ready@ == old(self).manager.ready@,
            final(self).same_admin(*old(self)),
            final(self).same_tasks_except(*old(self), old(self).cur_pid()),
            ({
                let o = old(self).cur_task();
                let enc = taskinfo_bytes(
                    o.status,
                    o.syscall_times@,
                    (old(self).now_us / 1000 - o.create_time / 1000) as nat,
                );
                &&& (r == 0 <==> old(self).cur_task().memory_set.va_range_mapped(
                    ti as int,
                    enc.len() as int,
                ))
                &&& (r == 0 || r == -1)
                &&& (r == -1 ==> final(self).cur_task() == old(self).cur_task())
                &&& (r == 0 ==> ({
                    let m1 = o.memory_set;
                    let m2 = final(self).cur_task().memory_set;
                    &&& final(self).cur_task() == (TaskControlBlock {
                        memory_set: m2,
                        ..o
                    })
                    &&& m2.same_footprint(m1)
                    &&& forall|b: int|
                        0 <= b < enc.len() ==> #[trigger] m2.byte_at(ti + b) == enc[b]
                    &&& m2.bytes_unchanged_outside(m1, ti as int, enc.len() as int)
                }))
            }),
    {
        let idx = self.current_index();
        let t = &self.tasks[idx];
        proof {
            assert(t.create_time <= self.now_us);
            vstd::arithmetic::div_mod::lemma_div_is_ordered(
                t.create_time as int,
                self.now_us as int,
                1000,
            );
        }
        let info = TaskInfo {
            status: t.status,
            syscall_times: crate::dup_vec(&t.syscall_times),
            time: self.now_us / 1000 - t.create_time / 1000,
        };
        let bytes = encode_task_info(&info);
        let ok = self.write_current_bytes(ti, &bytes);
        if ok {
            0
        } else {
            -1
        }
    }
}


} // verus!
