//! Process-management core of a small preemptive kernel.
//!
//! The crate models the state the kernel keeps for its tasks — a priority
//! ordered ready queue (stride scheduling), the single logical processor,
//! and one task control block per task — and implements the process-control
//! syscalls over that state: `fork`, `exec`, `spawn`, `waitpid`, `exit`,
//! `yield`, `sbrk`, `set_priority`, `mmap`, `munmap`, `get_time` and
//! `task_info`.  Every operation carries a contract that pins down its
//! result and its effect on the kernel state.
//!
//! The pieces a real machine supplies — the raw register context switch,
//! the timer interrupt, the ELF parser — stay outside: the scheduler is
//! exposed as an explicit dispatch step, the clock as a counter the
//! embedder advances, and an application image as already-parsed loadable
//! segment data.

pub mod codec;
pub mod kernel;
pub mod laws;
pub mod manager;
pub mod mm;
pub mod processor;
pub mod syscall;
pub mod task;

use vstd::prelude::*;

verus! {

/// Size of one page of virtual memory, in bytes.
pub const PAGE_SIZE: usize = 4096;

/// One past the highest usable virtual address.
pub const MAX_VA: usize = 0x4000_0000;

/// Number of virtual pages below `MAX_VA`.
pub const MAX_VPN: usize = 0x40000;

/// Exclusive upper bound on process identifiers, so that a pid always
/// fits the `isize` a syscall returns.
pub const PID_LIMIT: usize = 0x4000_0000;

/// Number of distinct syscall identifiers whose invocations are counted
/// per task.
pub const MAX_SYSCALL_NUM: usize = 500;

/// Stride-scheduling constant: each dispatch advances the chosen task's
/// stride by `BIG_STRIDE / priority`, so a higher priority means a smaller
/// increment and more frequent selection.
pub const BIG_STRIDE: u64 = 65536;

/// Lowest admissible scheduling priority.
pub const MIN_PRIORITY: usize = 2;

/// Priority a task starts with before `set_priority` changes it.
pub const DEFAULT_PRIORITY: usize = 16;

/// Upper bound kept on the kernel's microsecond clock, so that the
/// second/microsecond split never overflows on any machine word size.
pub const MAX_TIME_US: usize = 0x4000_0000;

/// Copy of a vector of plain values with the same contents.
pub fn dup_vec<T: Copy>(v: &Vec<T>) -> (r: Vec<T>)
    ensures
        r@ == v@,
{
    let n = v.len();
    let mut r: Vec<T> = Vec::new();
    let mut i: usize = 0;
    while i < n
        invariant
            n == v@.len(),
            i <= n,
            r@.len() == i,
            forall|j: int| 0 <= j < i ==> r@[j] == v@[j],
        decreases n - i,
    {
        r.push(v[i]);
        i += 1;
    }
    proof {
        assert(r@ =~= v@);
    }
    r
}

} // verus!
