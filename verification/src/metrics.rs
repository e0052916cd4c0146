//! Arithmetic behind the live system metrics shown on the dashboard.

use vstd::prelude::*;

verus! {

/// Usage of one mounted disk, as sampled by the metrics collector.
#[derive(Debug, Clone)]
pub struct DiskSnapshot {
    pub mount_point: String,
    pub total_bytes: u64,
    pub available_bytes: u64,
}

impl DiskSnapshot {
    /// Bytes in use: total minus available, never below zero.
    pub fn used_bytes(&self) -> (used: u64)
        ensures
            used == if self.available_bytes <= self.total_bytes {
                (self.total_bytes - self.available_bytes) as u64
            } else {
                0u64
            },
    {
        self.total_bytes.saturating_sub(self.available_bytes)
    }
}

/// The total of the first components of `s`.
pub open spec fn total_received(s: Seq<(u64, u64)>) -> nat
    decreases s.len(),
{
    if s.len() == 0 {
        0
    } else {
        total_received(s.drop_last()) + s.last().0 as nat
    }
}

/// The total of the second components of `s`.
pub open spec fn total_transmitted(s: Seq<(u64, u64)>) -> nat
    decreases s.len(),
{
    if s.len() == 0 {
        0
    } else {
        total_transmitted(s.drop_last()) + s.last().1 as nat
    }
}

/// Partial totals never exceed the full total.
proof fn lemma_totals_monotone(s: Seq<(u64, u64)>, k: int)
    requires
        0 <= k <= s.len(),
    ensures
        total_received(s.take(k)) <= total_received(s),
        total_transmitted(s.take(k)) <= total_transmitted(s),
    decreases s.len() - k,
{
    if k < s.len() {
        lemma_totals_monotone(s, k + 1);
        assert(s.take(k + 1).drop_last() =~= s.take(k));
    } else {
        assert(s.take(k) =~= s);
    }
}

/// The bytes received and transmitted over all network interfaces since
/// the last refresh, from each interface's `(received, transmitted)`
/// counts; none when a total does not fit in 64 bits.
pub fn network_totals(per_interface: &Vec<(u64, u64)>) -> (totals: Option<(u64, u64)>)
    ensures
        match totals {
            Some((rx, tx)) => rx == total_received(per_interface@) && tx == total_transmitted(
                per_interface@,
            ),
            None => total_received(per_interface@) > u64::MAX || total_transmitted(per_interface@)
                > u64::MAX,
        },
{
    let mut rx: u64 = 0;
    let mut tx: u64 = 0;
    let n = per_interface.len();
    let mut i: usize = 0;
    assert(per_interface@.take(0) =~= Seq::<(u64, u64)>::empty());
    while i < n
        invariant
            n == per_interface@.len(),
            i <= n,
            rx == total_received(per_interface@.take(i as int)),
            tx == total_transmitted(per_interface@.take(i as int)),
        decreases n - i,
    {
        let (r, t) = per_interface[i];
        proof {
            let pre = per_interface@.take(i + 1);
            assert(pre.drop_last() =~= per_interface@.take(i as int));
            assert(pre.last() == per_interface@[i as int]);
            lemma_totals_monotone(per_interface@, i + 1);
        }
        if r > u64::MAX - rx || t > u64::MAX - tx {
            return None;
        }
        rx = rx + r;
        tx = tx + t;
        i = i + 1;
    }
    assert(per_interface@.take(n as int) =~= per_interface@);
    Some((rx, tx))
}

} // verus!
