//! Rounding up to a power of two.

use vstd::prelude::*;

verus! {

/// The least `w` with `n <= 2^w`.
pub open spec fn ceil_log2(n: nat) -> nat
    decreases n,
{
    if n <= 1 {
        0
    } else {
        1 + ceil_log2((n + 1) / 2)
    }
}

/// The least power of two that is no less than `n`.
pub open spec fn power_above(n: nat) -> nat {
    vstd::arithmetic::power2::pow2(ceil_log2(n))
}

pub proof fn lemma_ceil_log2(n: nat)
    ensures
        n <= power_above(n),
        n >= 2 ==> ceil_log2(n) >= 1 && vstd::arithmetic::power2::pow2((ceil_log2(n) - 1) as nat)
            < n,
    decreases n,
{
    vstd::arithmetic::power2::lemma2_to64();
    if n >= 2 {
        let half = (n + 1) / 2;
        lemma_ceil_log2(half);
        let w = ceil_log2(half);
        vstd::arithmetic::power2::lemma_pow2_unfold((w + 1) as nat);
        if half >= 2 {
            vstd::arithmetic::power2::lemma_pow2_unfold(w);
        }
    }
}

/// The least power of two that is no less than `n`, and its exponent.
pub fn next_power_of_two(n: usize) -> (found: (usize, u32))
    requires
        power_above(n as nat) <= usize::MAX,
    ensures
        found.0 == power_above(n as nat),
        found.1 == ceil_log2(n as nat),
{
    let ghost w = ceil_log2(n as nat);
    let mut reach: usize = 1;
    let mut width: u32 = 0;
    proof {
        lemma_ceil_log2(n as nat);
        vstd::arithmetic::power2::lemma2_to64();
        vstd::arithmetic::power2::lemma2_to64_rest();
        if w > 64 {
            vstd::arithmetic::power2::lemma_pow2_strictly_increases(64, w);
        }
    }
    while reach < n
        invariant
            reach == vstd::arithmetic::power2::pow2(width as nat),
            w == ceil_log2(n as nat),
            width <= w <= 64,
            n <= power_above(n as nat) <= usize::MAX,
        decreases w - width,
    {
        proof {
            assert(width < w);
            vstd::arithmetic::power2::lemma_pow2_unfold((width + 1) as nat);
            if width + 1 < w {
                vstd::arithmetic::power2::lemma_pow2_strictly_increases((width + 1) as nat, w);
            }
        }
        reach = reach * 2;
        width = width + 1;
    }
    proof {
        if n >= 2 && width < w - 1 {
            vstd::arithmetic::power2::lemma_pow2_strictly_increases(width as nat, (w - 1) as nat);
        }
    }
    (reach, width)
}

} // verus!
