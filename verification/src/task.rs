//! Task control block: the state record the kernel keeps for one task —
//! identity, scheduling fields, status, counters, timing, address space,
//! saved contexts and the parent/child links.

use vstd::prelude::*;

use crate::mm::MemorySet;
use crate::MAX_SYSCALL_NUM;
use crate::MIN_PRIORITY;
use crate::PID_LIMIT;

verus! {

/// Lifecycle state of a task; `Zombie` is terminal.
#[derive(Clone, Copy, PartialEq, Eq, Structural, Debug)]
pub enum TaskStatus {
    Ready,
    Running,
    Zombie,
}

/// Saved user-mode register state; `x[10]` carries a syscall's return
/// value back to user mode.
pub struct TrapContext {
    pub x: Vec<usize>,
    pub sepc: usize,
}

/// Index of the register that carries a syscall's return value.
pub const RET_REG: usize = 10;

/// Number of saved user-mode registers.
pub const REG_COUNT: usize = 32;

impl TrapContext {
    pub open spec fn wf(self) -> bool {
        self.x@.len() == REG_COUNT
    }

    /// The register context a fresh task starts with: all registers zero
    /// and execution set to begin at `entry`.
    pub fn app_init_context(entry: usize) -> (r: TrapContext)
        ensures
            r.wf(),
            r.sepc == entry,
            forall|i: int| 0 <= i < REG_COUNT ==> r.x@[i] == 0,
    {
        let mut x: Vec<usize> = Vec::new();
        let mut i: usize = 0;
        while i < REG_COUNT
            invariant
                i <= REG_COUNT,
                x@.len() == i,
                forall|j: int| 0 <= j < i ==> x@[j] == 0,
            decreases REG_COUNT - i,
        {
            x.push(0);
            i += 1;
        }
        TrapContext { x, sepc: entry }
    }

    /// An exact copy, as `fork` needs it.
    pub fn duplicate(&self) -> (r: TrapContext)
        ensures
            r.x@ == self.x@,
            r.sepc == self.sepc,
    {
        TrapContext { x: crate::dup_vec(&self.x), sepc: self.sepc }
    }
}

/// Saved kernel-mode continuation used by the context-switch primitive;
/// opaque to the scheduler's logic.
pub struct TaskContext {
    pub ra: usize,
    pub sp: usize,
}

impl TaskContext {
    pub fn zero_init() -> (r: TaskContext)
        ensures
            r.ra == 0,
            r.sp == 0,
    {
        TaskContext { ra: 0, sp: 0 }
    }
}

/// The state record for one task.
pub struct TaskControlBlock {
    pub pid: usize,
    pub status: TaskStatus,
    pub priority: usize,
    pub stride: u64,
    pub create_time: usize,
    pub syscall_times: Vec<u32>,
    pub exit_code: i32,
    pub memory_set: MemorySet,
    pub trap_cx: TrapContext,
    pub task_cx: TaskContext,
    pub parent: Option<usize>,
    pub children: Vec<usize>,
}

impl TaskControlBlock {
    pub open spec fn wf(self) -> bool {
        &&& self.pid < PID_LIMIT
        &&& self.priority >= MIN_PRIORITY
        &&& self.syscall_times@.len() == MAX_SYSCALL_NUM
        &&& self.trap_cx.wf()
        &&& self.memory_set.wf()
        &&& (self.parent matches Some(p) ==> p < self.pid)
        &&& forall|i: int, j: int|
            0 <= i < j < self.children@.len() ==> self.children@[i] != self.children@[j]
        &&& forall|i: int| 0 <= i < self.children@.len() ==> #[trigger] self.children@[i] < PID_LIMIT
    }

    /// A zero-filled syscall counter table.
    pub fn fresh_syscall_times() -> (r: Vec<u32>)
        ensures
            r@.len() == MAX_SYSCALL_NUM,
            forall|i: int| 0 <= i < MAX_SYSCALL_NUM ==> r@[i] == 0,
    {
        let mut v: Vec<u32> = Vec::new();
        let mut i: usize = 0;
        while i < MAX_SYSCALL_NUM
            invariant
                i <= MAX_SYSCALL_NUM,
                v@.len() == i,
                forall|j: int| 0 <= j < i ==> v@[j] == 0,
            decreases MAX_SYSCALL_NUM - i,
        {
            v.push(0);
            i += 1;
        }
        v
    }
}

} // verus!
