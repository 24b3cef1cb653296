//! Laws the memory-mapping and scheduling contracts add up to: the
//! `mmap`/`munmap` round trip restores the mapped-region set, and stride
//! scheduling dispatches two tasks in proportion to their priorities.

use vstd::prelude::*;

use crate::manager::entry_le;
use crate::manager::ReadyEntry;
use crate::mm::vpn_ceil;
use crate::mm::vpn_floor;
use crate::mm::MemorySet;
use crate::syscall::mmap_valid;
use crate::BIG_STRIDE;

verus! {

/// Law: a successful `mmap` of a valid, free range followed immediately
/// by `munmap` of the same range leaves the address space's mapped-region
/// set exactly as it was, and the `munmap` cannot fail: the whole rounded
/// range is mapped after the `mmap`.
///
/// The hypotheses on `m0 -> m1` are the success `ensures` of `sys_mmap`,
/// those on `m1 -> m2` the success `ensures` of `sys_munmap`, so a caller
/// of the two syscalls holds every one of them.
pub proof fn lemma_mmap_munmap_round_trip(
    m0: MemorySet,
    m1: MemorySet,
    m2: MemorySet,
    start: int,
    len: int,
    port: int,
)
    requires
        mmap_valid(start, len, port),
        m0.range_free(vpn_floor(start), vpn_ceil(start + len)),
        m1.heap_bottom == m0.heap_bottom,
        m1.program_brk == m0.program_brk,
        forall|v: int| vpn_floor(start) <= v < vpn_ceil(start + len) ==> m1.is_mapped(v),
        forall|v: int|
            !(vpn_floor(start) <= v < vpn_ceil(start + len)) ==> (m1.is_mapped(v)
                <==> m0.is_mapped(v)),
        forall|v: int|
            !(vpn_floor(start) <= v < vpn_ceil(start + len)) && m0.is_mapped(v) ==> m1.frame_at(
                v,
            ) == m0.frame_at(v),
        m2.heap_bottom == m1.heap_bottom,
        m2.program_brk == m1.program_brk,
        forall|v: int| vpn_floor(start) <= v < vpn_ceil(start + len) ==> !m2.is_mapped(v),
        forall|v: int|
            !(vpn_floor(start) <= v < vpn_ceil(start + len)) ==> (m2.is_mapped(v)
                <==> m1.is_mapped(v)),
        forall|v: int|
            !(vpn_floor(start) <= v < vpn_ceil(start + len)) && m1.is_mapped(v) ==> m2.frame_at(
                v,
            ) == m1.frame_at(v),
    ensures
        m1.range_mapped(vpn_floor(start), vpn_ceil(start + len)),
        forall|v: int| m2.is_mapped(v) <==> m0.is_mapped(v),
        forall|v: int| m0.is_mapped(v) ==> m2.frame_at(v) == m0.frame_at(v),
        m2.mem_map() == m0.mem_map(),
        m2.heap_bottom == m0.heap_bottom,
        m2.program_brk == m0.program_brk,
{
    let sv = vpn_floor(start);
    let ev = vpn_ceil(start + len);
    assert forall|v: int| m2.is_mapped(v) <==> m0.is_mapped(v) by {
        if sv <= v < ev {
            assert(!m2.is_mapped(v) && !m0.is_mapped(v));
        }
    }
    assert forall|v: int| m0.is_mapped(v) implies m2.frame_at(v) == m0.frame_at(v) by {
        assert(!(sv <= v < ev));
        assert(m1.is_mapped(v));
    }
    assert(m2.mem_map() =~= m0.mem_map());
}

/// The manager's scheduling order is exactly the numeric key order:
/// smaller stride first, ties broken by the smaller pid.
pub proof fn lemma_entry_order_is_stride_key(a: ReadyEntry, b: ReadyEntry)
    ensures
        entry_le(a, b) == stride_key_le(a.stride as int, a.pid as int, b.stride as int, b.pid as int),
{
}

/// Scheduling order on the numeric keys: smaller stride first, ties
/// broken by the smaller pid.
pub open spec fn stride_key_le(s1: int, p1: int, s2: int, p2: int) -> bool {
    s1 < s2 || (s1 == s2 && p1 <= p2)
}

/// State of two tasks A and B (A carrying the smaller pid) after `n`
/// dispatches under the stride policy, both always ready again by their
/// next turn: strides of A and B, then dispatch counts of A and B.  Each
/// step runs the task `stride_key_le` puts first — what `fetch` removes —
/// and advances its stride by `BIG_STRIDE / priority` — what `dispatch`
/// adds.
pub open spec fn two_task_run(pa: int, pb: int, n: nat) -> (int, int, int, int)
    decreases n,
{
    if n == 0 {
        (0, 0, 0, 0)
    } else {
        let (sa, sb, ca, cb) = two_task_run(pa, pb, (n - 1) as nat);
        if stride_key_le(sa, 0, sb, 1) {
            (sa + BIG_STRIDE / (pa as u64), sb, ca + 1, cb)
        } else {
            (sa, sb + BIG_STRIDE / (pb as u64), ca, cb + 1)
        }
    }
}

/// Law: with task A at priority 4 and task B at priority 2, dispatching
/// repeatedly, the priority-4 task is selected exactly twice as often:
/// every window of `3 * k` dispatches runs A `2 * k` times and B `k`
/// times, their strides meeting again at its end.
pub proof fn lemma_stride_fairness_four_two(k: nat)
    ensures
        two_task_run(4, 2, 3 * k) == (
            (BIG_STRIDE as int / 2) * k,
            (BIG_STRIDE as int / 2) * k,
            2 * k as int,
            k as int,
        ),
    decreases k,
{
    if k == 0 {
        assert(two_task_run(4, 2, 0) == (0int, 0int, 0int, 0int));
    } else {
        lemma_stride_fairness_four_two((k - 1) as nat);
        let s = (BIG_STRIDE as int / 2) * ((k - 1) as int);
        let ca = 2 * ((k - 1) as int);
        let cb = (k - 1) as int;
        assert(two_task_run(4, 2, 3 * (k - 1) as nat) == (s, s, ca, cb));
        let ia = BIG_STRIDE as int / 4;
        let ib = BIG_STRIDE as int / 2;
        assert(3 * k - 1 == 3 * (k - 1) + 2 && 3 * k - 2 == 3 * (k - 1) + 1);
        assert(two_task_run(4, 2, (3 * k - 2) as nat) == (s + ia, s, ca + 1, cb)) by {
            assert((3 * k - 2) as nat == 3 * (k - 1) as nat + 1);
            assert(stride_key_le(s, 0, s, 1));
        }
        assert(two_task_run(4, 2, (3 * k - 1) as nat) == (s + ia, s + ib, ca + 1, cb + 1)) by {
            assert(!stride_key_le(s + ia, 0, s, 1));
        }
        assert(two_task_run(4, 2, 3 * k) == (s + ib, s + ib, ca + 2, cb + 1)) by {
            assert((3 * k) as nat != 0);
            assert(stride_key_le(s + ia, 0, s + ib, 1));
            assert(s + ia + ia == s + ib);
        }
        assert(s + ib == (BIG_STRIDE as int / 2) * k) by {
            assert((BIG_STRIDE as int / 2) * ((k - 1) as int) + BIG_STRIDE as int / 2 == (
            BIG_STRIDE as int / 2) * (k as int)) by (nonlinear_arith);
        }
    }
}

} // verus!
