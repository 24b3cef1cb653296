//! Little-endian byte encodings for the structures the telemetry
//! syscalls write into user memory.

use vstd::prelude::*;

verus! {

/// The `n` little-endian bytes of `v`.
pub open spec fn le_bytes(v: nat, n: nat) -> Seq<u8>
    decreases n,
{
    if n == 0 {
        Seq::empty()
    } else {
        seq![(v % 256) as u8] + le_bytes(v / 256, (n - 1) as nat)
    }
}

pub proof fn lemma_le_bytes_len(v: nat, n: nat)
    ensures
        le_bytes(v, n).len() == n,
    decreases n,
{
    if n > 0 {
        lemma_le_bytes_len(v / 256, (n - 1) as nat);
    }
}

/// The eight little-endian bytes of a machine word.
pub fn usize_le_bytes(v: usize) -> (r: Vec<u8>)
    ensures
        r@ == le_bytes(v as nat, 8),
{
    let mut r: Vec<u8> = Vec::new();
    let mut cur: usize = v;
    let mut i: usize = 0;
    while i < 8
        invariant
            i <= 8,
            r@.len() == i,
            le_bytes(v as nat, 8) == r@ + le_bytes(cur as nat, (8 - i) as nat),
        decreases 8 - i,
    {
        let ghost pre_r = r@;
        let ghost pre_cur = cur as nat;
        r.push((cur % 256) as u8);
        cur = cur / 256;
        proof {
            assert(le_bytes(pre_cur, (8 - i) as nat) == seq![(pre_cur % 256) as u8] + le_bytes(
                pre_cur / 256,
                (8 - (i + 1)) as nat,
            ));
            assert(r@ == pre_r.push((pre_cur % 256) as u8));
            assert(le_bytes(v as nat, 8) =~= r@ + le_bytes(cur as nat, (8 - (i + 1)) as nat));
        }
        i += 1;
    }
    proof {
        assert(le_bytes(cur as nat, 0) =~= Seq::<u8>::empty());
        assert(le_bytes(v as nat, 8) =~= r@);
    }
    r
}

/// The four little-endian bytes of a counter.
pub fn u32_le_bytes(v: u32) -> (r: Vec<u8>)
    ensures
        r@ == le_bytes(v as nat, 4),
{
    let mut r: Vec<u8> = Vec::new();
    let mut cur: u32 = v;
    let mut i: usize = 0;
    while i < 4
        invariant
            i <= 4,
            r@.len() == i,
            le_bytes(v as nat, 4) == r@ + le_bytes(cur as nat, (4 - i) as nat),
        decreases 4 - i,
    {
        let ghost pre_r = r@;
        let ghost pre_cur = cur as nat;
        r.push((cur % 256) as u8);
        cur = cur / 256;
        proof {
            assert(le_bytes(pre_cur, (4 - i) as nat) == seq![(pre_cur % 256) as u8] + le_bytes(
                pre_cur / 256,
                (4 - (i + 1)) as nat,
            ));
            assert(r@ == pre_r.push((pre_cur % 256) as u8));
            assert(le_bytes(v as nat, 4) =~= r@ + le_bytes(cur as nat, (4 - (i + 1)) as nat));
        }
        i += 1;
    }
    proof {
        assert(le_bytes(cur as nat, 0) =~= Seq::<u8>::empty());
        assert(le_bytes(v as nat, 4) =~= r@);
    }
    r
}

/// The bytes of the first `n` counters, four each, in order.
pub open spec fn times_bytes_prefix(ts: Seq<u32>, n: int) -> Seq<u8>
    decreases n,
{
    if n <= 0 {
        Seq::empty()
    } else {
        times_bytes_prefix(ts, n - 1) + le_bytes(ts[n - 1] as nat, 4)
    }
}

pub proof fn lemma_times_bytes_prefix_len(ts: Seq<u32>, n: int)
    requires
        0 <= n,
    ensures
        times_bytes_prefix(ts, n).len() == 4 * n,
    decreases n,
{
    if n > 0 {
        lemma_times_bytes_prefix_len(ts, n - 1);
        lemma_le_bytes_len(ts[n - 1] as nat, 4);
    }
}

/// The bytes of a whole counter table.
pub fn times_le_bytes(ts: &Vec<u32>) -> (r: Vec<u8>)
    ensures
        r@ == times_bytes_prefix(ts@, ts@.len() as int),
{
    let n = ts.len();
    let mut r: Vec<u8> = Vec::new();
    let mut i: usize = 0;
    while i < n
        invariant
            i <= n,
            n == ts@.len(),
            r@ == times_bytes_prefix(ts@, i as int),
        decreases n - i,
    {
        let mut chunk = u32_le_bytes(ts[i]);
        let ghost pre_r = r@;
        let ghost chunkg = chunk@;
        r.append(&mut chunk);
        proof {
            assert(r@ == pre_r + chunkg);
            assert(times_bytes_prefix(ts@, i as int + 1) == times_bytes_prefix(ts@, i as int)
                + le_bytes(ts@[i as int] as nat, 4));
        }
        i += 1;
    }
    r
}

} // verus!
