//! Histogram bin counts and reservoir slots for numeric samples.
use vstd::prelude::*;

verus! {

/// Largest `k` with `2^k <= n`.
pub open spec fn floor_log2(n: nat) -> nat
    decreases n,
{
    if n <= 1 {
        0
    } else {
        floor_log2(n / 2) + 1
    }
}

pub open spec fn pow2(k: nat) -> nat
    decreases k,
{
    if k == 0 {
        1
    } else {
        2 * pow2((k - 1) as nat)
    }
}

/// `ceil(log2(n) + 1)` for `n >= 1`: one more than the exponent for a power of two,
/// two more than the floor otherwise.
pub open spec fn log_bins(n: nat) -> nat {
    if pow2(floor_log2(n)) == n {
        floor_log2(n) + 1
    } else {
        floor_log2(n) + 2
    }
}

/// Histogram bins for `count` observed values: `ceil(log2(count) + 1)` clamped to
/// 5..=50, and 10 (so clamped the same way) when nothing was observed.
pub open spec fn bin_count_for(count: nat) -> nat {
    let raw = if count == 0 {
        10
    } else {
        log_bins(count)
    };
    if raw < 5 {
        5
    } else if raw > 50 {
        50
    } else {
        raw
    }
}

/// Number of histogram bins for `count` observed values.
pub fn histogram_bin_count(count: u64) -> (r: usize)
    ensures
        r == bin_count_for(count as nat),
{
    if count == 0 {
        return 10;
    }
    let mut k: u64 = 0;
    let mut m: u64 = count;
    let mut p: u64 = 1;
    while m > 1
        invariant
            m >= 1,
            k < p,
            p == pow2(k as nat),
            p <= count,
            floor_log2(count as nat) == k + floor_log2(m as nat),
            pow2(floor_log2(count as nat)) == p * pow2(floor_log2(m as nat)),
            m * p <= count < (m + 1) * p,
        decreases m,
    {
        assert(floor_log2(m as nat) == floor_log2((m / 2) as nat) + 1);
        assert(pow2(floor_log2(m as nat)) == 2 * pow2(floor_log2((m / 2) as nat)));
        let ghost a = pow2(floor_log2((m / 2) as nat));
        assert(p * (2 * a) == (2 * p) * a) by (nonlinear_arith);
        assert((m / 2) * (2 * p) <= m * p) by (nonlinear_arith)
            requires
                m >= 2,
        ;
        assert(count < (m / 2 + 1) * (2 * p)) by (nonlinear_arith)
            requires
                count < (m + 1) * p,
                p >= 1,
        ;
        assert(2 * p <= count) by (nonlinear_arith)
            requires
                m >= 2,
                m * p <= count,
        ;
        m = m / 2;
        p = 2 * p;
        k = k + 1;
    }
    assert(floor_log2(1) == 0);
    assert(pow2(0) == 1);
    let raw: u64 = if p == count {
        k + 1
    } else {
        k + 2
    };
    if raw < 5 {
        5
    } else if raw > 50 {
        50
    } else {
        raw as usize
    }
}

/// Where the `k`-th observed value lands in a reservoir of `capacity` values: the
/// first `capacity` values fill it in order; after that the slot is
/// `(k * 1103515245 + 12345) mod k`, and the value is dropped when that slot is past the
/// end.
pub open spec fn reservoir_slot_for(k: nat, capacity: nat) -> Option<nat> {
    if k == 0 {
        None
    } else if k <= capacity {
        Some((k - 1) as nat)
    } else {
        let j = (k * 1103515245 + 12345) % k;
        if j < capacity {
            Some(j as nat)
        } else {
            None
        }
    }
}

/// The slot that the `k`-th observed value takes in a reservoir of `capacity` values.
pub fn reservoir_slot(k: u64, capacity: usize) -> (r: Option<usize>)
    ensures
        r is Some == reservoir_slot_for(k as nat, capacity as nat) is Some,
        r matches Some(j) ==> reservoir_slot_for(k as nat, capacity as nat) == Some(j as nat)
            && j < capacity,
{
    if k == 0 {
        return None;
    }
    if k <= capacity as u64 {
        return Some((k - 1) as usize);
    }
    let j: u128 = (k as u128 * 1103515245 + 12345) % (k as u128);
    if j < capacity as u128 {
        Some(j as usize)
    } else {
        None
    }
}

} // verus!
