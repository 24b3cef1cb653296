//! Task manager: the priority-ordered ready queue.
//!
//! Stride scheduling: every entry carries the task's accumulated stride,
//! and `fetch` removes the entry whose stride is smallest, breaking ties
//! by the smaller pid so that selection is deterministic and starvation
//! free.  The stride itself is advanced by the dispatcher, by
//! `BIG_STRIDE / priority`, so a higher priority accumulates stride more
//! slowly and is selected more often.

use vstd::prelude::*;

verus! {

/// One ready task as the manager orders it.
#[derive(Clone, Copy, PartialEq, Eq, Structural, Debug)]
pub struct ReadyEntry {
    pub pid: usize,
    pub stride: u64,
    pub priority: usize,
}

/// Scheduling order: smaller stride first, ties broken by smaller pid.
pub open spec fn entry_le(a: ReadyEntry, b: ReadyEntry) -> bool {
    a.stride < b.stride || (a.stride == b.stride && a.pid <= b.pid)
}

/// The set of Ready tasks awaiting CPU time.
pub struct TaskManager {
    pub ready: Vec<ReadyEntry>,
}

impl TaskManager {
    /// An empty ready queue.
    pub fn new() -> (r: TaskManager)
        ensures
            r.ready@.len() == 0,
    {
        TaskManager { ready: Vec::new() }
    }

    /// Insert a Ready task; no other entry is touched.
    pub fn add(&mut self, entry: ReadyEntry)
        ensures
            final(self).ready@ == old(self).ready@.push(entry),
    {
        self.ready.push(entry);
    }

    /// Remove and return the entry that should run next: the one with the
    /// smallest stride, ties broken by the smaller pid.  Nothing comes
    /// back when the ready set is empty — that is "no work", not an error.
    pub fn fetch(&mut self) -> (r: Option<ReadyEntry>)
        ensures
            old(self).ready@.len() == 0 ==> r is None && final(self).ready@ == old(self).ready@,
            old(self).ready@.len() > 0 ==> {
                &&& r is Some
                &&& exists|i: int|
                    0 <= i < old(self).ready@.len() && r == Some(old(self).ready@[i])
                        && final(self).ready@ == old(self).ready@.remove(i)
                &&& forall|j: int|
                    0 <= j < old(self).ready@.len() ==> entry_le(
                        r.unwrap(),
                        #[trigger] old(self).ready@[j],
                    )
            },
    {
        let n = self.ready.len();
        if n == 0 {
            return None;
        }
        let mut best: usize = 0;
        let mut i: usize = 1;
        while i < n
            invariant
                n == self.ready@.len(),
                best < i <= n,
                forall|j: int| 0 <= j < i ==> entry_le(
                    self.ready@[best as int],
                    #[trigger] self.ready@[j],
                ),
            decreases n - i,
        {
            let cur_stride = self.ready[i].stride;
            let cur_pid = self.ready[i].pid;
            let best_stride = self.ready[best].stride;
            let best_pid = self.ready[best].pid;
            if cur_stride < best_stride || (cur_stride == best_stride && cur_pid < best_pid) {
                best = i;
            }
            i += 1;
        }
        let e = self.ready.remove(best);
        Some(e)
    }
}

} // verus!
