//! The logarithmic bound `ceil(log2(n))` that limits node depths.

use vstd::prelude::*;

verus! {

/// `2^k`.
pub open spec fn pow2(k: nat) -> nat
    decreases k,
{
    if k == 0 {
        1
    } else {
        2 * pow2((k - 1) as nat)
    }
}

/// `ceil(log2(n))`, taken as 0 for `n <= 1`.
pub open spec fn ceil_log2(n: nat) -> nat
    decreases n,
{
    if n <= 1 {
        0
    } else {
        1 + ceil_log2(((n + 1) / 2) as nat)
    }
}

/// `ceil_log2(n)` is the least `k` with `n <= 2^k`.
pub proof fn lemma_ceil_log2_is_least_power(n: nat)
    ensures
        n <= pow2(ceil_log2(n)),
        ceil_log2(n) == 0 || pow2((ceil_log2(n) - 1) as nat) < n,
    decreases n,
{
    if n > 1 {
        lemma_ceil_log2_is_least_power(((n + 1) / 2) as nat);
    }
}

/// The bound never shrinks as the node count grows.
pub proof fn lemma_ceil_log2_monotone(a: nat, b: nat)
    requires
        a <= b,
    ensures
        ceil_log2(a) <= ceil_log2(b),
    decreases b,
{
    if a > 1 {
        lemma_ceil_log2_monotone(((a + 1) / 2) as nat, ((b + 1) / 2) as nat);
    }
}

/// Computes `ceil(log2(n))` (0 for `n <= 1`).
pub fn ceil_log2_exec(n: usize) -> (r: usize)
    ensures
        r == ceil_log2(n as nat),
        r <= n,
        n >= 1 ==> r < n,
    decreases n,
{
    if n <= 1 {
        0
    } else {
        let half: usize = n / 2 + n % 2;
        assert(half as nat == ((n + 1) / 2) as nat);
        let k = ceil_log2_exec(half);
        k + 1
    }
}

} // verus!
