//! Powers of two and the base-two logarithm, used to relate the number of
//! leaves of a tree to the height of its root.

use vstd::prelude::*;

verus! {

/// `2^k`.
pub open spec fn pow2(k: nat) -> nat
    decreases k,
{
    if k == 0 {
        1
    } else {
        2 * pow2((k - 1) as nat)
    }
}

/// Base-two logarithm, rounded down; `log2(0)` is taken to be `0`.
pub open spec fn log2(n: nat) -> nat
    decreases n,
{
    if n <= 1 {
        0
    } else {
        1 + log2(n / 2)
    }
}

/// Whether `n` is a power of two (in particular `n >= 1`).
pub open spec fn is_pow2(n: nat) -> bool {
    n >= 1 && pow2(log2(n)) == n
}

pub proof fn lemma_pow2_pos(k: nat)
    ensures
        pow2(k) >= 1,
    decreases k,
{
    if k > 0 {
        lemma_pow2_pos((k - 1) as nat);
    }
}

/// The logarithm inverts the power: `log2(2^k) == k`.
pub proof fn lemma_log2_pow2(k: nat)
    ensures
        log2(pow2(k)) == k,
    decreases k,
{
    if k == 0 {
    } else {
        lemma_pow2_pos((k - 1) as nat);
        lemma_log2_pow2((k - 1) as nat);
        assert(pow2(k) / 2 == pow2((k - 1) as nat));
    }
}

/// Powers of two are injective.
pub proof fn lemma_pow2_injective(a: nat, b: nat)
    requires
        pow2(a) == pow2(b),
    ensures
        a == b,
{
    lemma_log2_pow2(a);
    lemma_log2_pow2(b);
}

/// The logarithm never exceeds its argument.
pub proof fn lemma_log2_le(n: nat)
    ensures
        log2(n) <= n,
    decreases n,
{
    if n > 1 {
        lemma_log2_le(n / 2);
    }
}

/// Halving an even number keeps or loses the power-of-two property together.
pub proof fn lemma_is_pow2_half(n: nat)
    requires
        n >= 2,
        n % 2 == 0,
    ensures
        is_pow2(n) <==> is_pow2(n / 2),
        log2(n) == log2(n / 2) + 1,
{
    if is_pow2(n / 2) {
        assert(pow2(log2(n))  == 2 * pow2(log2(n / 2)));
    }
}

/// An odd number larger than one is not a power of two.
pub proof fn lemma_odd_not_pow2(n: nat)
    requires
        n >= 2,
        n % 2 == 1,
    ensures
        !is_pow2(n),
{
    if is_pow2(n) {
        assert(log2(n) >= 1);
        lemma_pow2_even(log2(n));
    }
}

/// `2^k` is even for `k >= 1`.
pub proof fn lemma_pow2_even(k: nat)
    requires
        k >= 1,
    ensures
        pow2(k) % 2 == 0,
{
}

} // verus!
