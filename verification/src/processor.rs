//! Processor: the single logical CPU.  It holds the pid of the task
//! currently assigned to the CPU, and the idle control-flow context the
//! dispatch loop runs on while no task is selected.

use vstd::prelude::*;

use crate::task::TaskContext;

verus! {

/// The one logical CPU: the current task, if any, and the idle context.
pub struct Processor {
    pub current: Option<usize>,
    pub idle_task_cx: TaskContext,
}

impl Processor {
    /// An idle processor with no task assigned.
    pub fn new() -> (r: Processor)
        ensures
            r.current is None,
    {
        Processor { current: None, idle_task_cx: TaskContext::zero_init() }
    }

    /// Remove and return the currently assigned task's pid, leaving the
    /// processor idle; used when a task yields, blocks or exits.
    pub fn take_current(&mut self) -> (r: Option<usize>)
        ensures
            r == old(self).current,
            final(self).current is None,
            final(self).idle_task_cx == old(self).idle_task_cx,
    {
        self.current.take()
    }

    /// The currently assigned task's pid without removing it.
    pub fn current(&self) -> (r: Option<usize>)
        ensures
            r == self.current,
    {
        self.current
    }
}

} // verus!
