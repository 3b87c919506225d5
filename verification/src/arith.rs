//! Powers of two and binary logarithms.
use vstd::arithmetic::power2::*;
use vstd::prelude::*;

verus! {

/// The number of binary digits of `m`; zero has none.
pub open spec fn bit_len(m: nat) -> nat
    decreases m,
{
    if m == 0 {
        0
    } else {
        1 + bit_len(m / 2)
    }
}

/// The least `k` with `n <= 2^k`.
pub open spec fn log2_ceil_spec(n: nat) -> nat {
    if n <= 1 {
        0
    } else {
        bit_len((n - 1) as nat)
    }
}

/// The least power of two that is at least `n`.
pub open spec fn next_pow2(n: nat) -> nat {
    pow2(log2_ceil_spec(n))
}

/// Whether `n` is a power of two.
pub open spec fn is_power(n: nat) -> bool {
    exists|k: nat| n == #[trigger] pow2(k)
}

pub proof fn lemma_bit_len(m: nat)
    ensures
        m < pow2(bit_len(m)),
        m > 0 ==> bit_len(m) > 0 && pow2((bit_len(m) - 1) as nat) <= m,
    decreases m,
{
    lemma2_to64();
    if m > 0 {
        lemma_bit_len(m / 2);
        lemma_pow2_unfold(bit_len(m));
        if m / 2 > 0 {
            lemma_pow2_unfold((bit_len(m) - 1) as nat);
        }
    }
}

/// [`next_pow2`] is at least its argument, and half of it is not.
pub proof fn lemma_next_pow2(n: nat)
    ensures
        n <= next_pow2(n),
        1 <= next_pow2(n),
        n > 1 ==> log2_ceil_spec(n) > 0 && pow2((log2_ceil_spec(n) - 1) as nat) < n,
        n > 1 ==> next_pow2(n) == 2 * pow2((log2_ceil_spec(n) - 1) as nat),
        n > 1 ==> next_pow2(n) < 2 * n,
        is_power(next_pow2(n)),
{
    lemma2_to64();
    lemma_pow2_pos(log2_ceil_spec(n));
    if n > 1 {
        lemma_bit_len((n - 1) as nat);
        lemma_pow2_unfold(log2_ceil_spec(n));
    }
}

pub proof fn lemma_pow2_monotone(a: nat, b: nat)
    requires
        a <= b,
    ensures
        pow2(a) <= pow2(b),
{
    if a < b {
        lemma_pow2_strictly_increases(a, b);
    }
}

/// The least power of two above a power of two is that power itself.
pub proof fn lemma_next_pow2_of_power(k: nat)
    ensures
        next_pow2(pow2(k)) == pow2(k),
        log2_ceil_spec(pow2(k)) == k,
{
    let n: nat = pow2(k);
    lemma_pow2_pos(k);
    lemma_next_pow2(n);
    let l: nat = log2_ceil_spec(n);
    lemma2_to64();
    if n > 1 {
        if l < k {
            lemma_pow2_strictly_increases(l, k);
        }
        if l > k {
            lemma_pow2_monotone(k, (l - 1) as nat);
        }
    } else {
        if k > 0 {
            lemma_pow2_strictly_increases(0, k);
        }
    }
}

/// A power of two that is at least `n` is at least [`next_pow2`] of it.
pub proof fn lemma_next_pow2_least(n: nat, k: nat)
    requires
        n <= pow2(k),
    ensures
        next_pow2(n) <= pow2(k),
        log2_ceil_spec(n) <= k,
{
    lemma_next_pow2(n);
    let l: nat = log2_ceil_spec(n);
    if n > 1 && l > k {
        lemma_pow2_monotone(k, (l - 1) as nat);
    }
    lemma_pow2_monotone(l, k);
}

pub proof fn lemma_next_pow2_monotone(a: nat, b: nat)
    requires
        a <= b,
    ensures
        next_pow2(a) <= next_pow2(b),
{
    lemma_next_pow2(b);
    lemma_next_pow2_least(a, log2_ceil_spec(b));
}

/// An exponent whose power of two fits in `usize` is below the number of its bits.
pub proof fn lemma_pow2_fits(k: nat)
    requires
        pow2(k) <= usize::MAX,
    ensures
        k < usize::BITS,
{
    lemma2_to64();
    lemma2_to64_rest();
    if k >= usize::BITS {
        lemma_pow2_monotone(usize::BITS as nat, k);
    }
}

/// The exponent of a power of two.
pub fn log2_strict(n: usize) -> (r: usize)
    requires
        is_power(n as nat),
    ensures
        pow2(r as nat) == n,
        r < usize::BITS,
{
    let ghost k0: nat = choose|k: nat| n as nat == #[trigger] pow2(k);
    let mut m: usize = n;
    let mut k: usize = 0;
    proof {
        lemma2_to64();
        lemma_pow2_fits(k0);
        assert(pow2(k0) * pow2(0) == pow2(k0));
    }
    while m > 1
        invariant
            k <= k0,
            k0 < usize::BITS,
            m == pow2((k0 - k) as nat),
        decreases m,
    {
        proof {
            lemma2_to64();
            if k0 - k == 0 {
                assert(false);
            }
            lemma_pow2_unfold((k0 - k) as nat);
        }
        m = m / 2;
        k = k + 1;
    }
    proof {
        lemma2_to64();
        if k < k0 {
            lemma_pow2_strictly_increases(0, (k0 - k) as nat);
        }
    }
    k
}

/// The least `k` with `n <= 2^k`.
pub fn log2_ceil(n: usize) -> (r: usize)
    requires
        n > 0,
    ensures
        r == log2_ceil_spec(n as nat),
        r <= usize::BITS,
{
    let mut m: usize = n - 1;
    let mut k: usize = 0;
    proof {
        lemma_bit_len(m as nat);
        lemma2_to64();
        lemma2_to64_rest();
        if bit_len(m as nat) > usize::BITS {
            lemma_pow2_monotone(usize::BITS as nat, (bit_len(m as nat) - 1) as nat);
        }
    }
    while m > 0
        invariant
            k + bit_len(m as nat) == bit_len((n - 1) as nat),
            bit_len((n - 1) as nat) <= usize::BITS,
        decreases m,
    {
        m = m / 2;
        k = k + 1;
    }
    k
}

/// The least power of two that is at least `n`.
pub fn next_power_of_two(n: usize) -> (r: usize)
    requires
        next_pow2(n as nat) <= usize::MAX,
    ensures
        r == next_pow2(n as nat),
{
    let mut p: usize = 1;
    let ghost mut k: nat = 0;
    proof {
        lemma2_to64();
        lemma_next_pow2(n as nat);
    }
    while p < n
        invariant
            p == pow2(k),
            k <= log2_ceil_spec(n as nat),
            next_pow2(n as nat) <= usize::MAX,
        decreases log2_ceil_spec(n as nat) - k,
    {
        proof {
            lemma_next_pow2(n as nat);
            if k >= log2_ceil_spec(n as nat) {
                assert(false);
            }
            lemma_pow2_unfold(k + 1);
            lemma_pow2_monotone(k + 1, log2_ceil_spec(n as nat));
            k = k + 1;
        }
        p = 2 * p;
    }
    proof {
        lemma_next_pow2_least(n as nat, k);
        lemma_pow2_monotone(k, log2_ceil_spec(n as nat));
    }
    p
}

/// `2^k`.
pub fn power_of_two(k: usize) -> (r: usize)
    requires
        pow2(k as nat) <= usize::MAX,
    ensures
        r == pow2(k as nat),
{
    let mut p: usize = 1;
    let mut i: usize = 0;
    proof {
        lemma2_to64();
    }
    while i < k
        invariant
            i <= k,
            p == pow2(i as nat),
            pow2(k as nat) <= usize::MAX,
        decreases k - i,
    {
        proof {
            lemma_pow2_unfold((i + 1) as nat);
            lemma_pow2_monotone((i + 1) as nat, k as nat);
        }
        p = 2 * p;
        i = i + 1;
    }
    p
}

/// `2^k`, where it fits.
pub fn checked_power_of_two(k: usize) -> (r: Option<usize>)
    ensures
        r is Some <==> pow2(k as nat) <= usize::MAX,
        r matches Some(p) ==> p == pow2(k as nat),
{
    if k >= usize::BITS as usize {
        proof {
            if pow2(k as nat) <= usize::MAX {
                lemma_pow2_fits(k as nat);
            }
        }
        return None;
    }
    proof {
        lemma2_to64();
        lemma2_to64_rest();
        lemma_pow2_monotone(k as nat, (usize::BITS - 1) as nat);
    }
    Some(power_of_two(k))
}

/// The least power of two that is at least `n`, where it fits.
pub fn checked_next_power_of_two(n: usize) -> (r: Option<usize>)
    ensures
        r is Some <==> next_pow2(n as nat) <= usize::MAX,
        r matches Some(p) ==> p == next_pow2(n as nat),
{
    let top: usize = usize::MAX / 2 + 1;
    let ghost high: nat = (usize::BITS - 1) as nat;
    proof {
        lemma2_to64();
        lemma2_to64_rest();
        assert(top == pow2(high));
        lemma_next_pow2(n as nat);
    }
    if n > top {
        proof {
            let l: nat = log2_ceil_spec(n as nat);
            if l <= high {
                lemma_pow2_monotone(l, high);
            }
            lemma_pow2_unfold(high + 1);
            lemma_pow2_monotone(high + 1, l);
        }
        return None;
    }
    proof {
        lemma_next_pow2_least(n as nat, high);
    }
    Some(next_power_of_two(n))
}

/// The exponents count up to the first whose power of two is not below the number, and the power is that
/// one.
pub proof fn law_next_pow2_is_least(n: nat, k: nat)
    ensures
        n <= pow2(log2_ceil_spec(n)),
        n <= pow2(k) <==> log2_ceil_spec(n) <= k,
        next_pow2(n) >= n,
        n <= pow2(k) ==> next_pow2(n) <= pow2(k),
        exists|e: nat| #[trigger] pow2(e) == next_pow2(n),
{
    lemma_next_pow2(n);
    assert(pow2(log2_ceil_spec(n)) == next_pow2(n));
    if n <= pow2(k) {
        lemma_next_pow2_least(n, k);
    }
    if log2_ceil_spec(n) <= k {
        lemma_pow2_monotone(log2_ceil_spec(n), k);
    }
}

} // verus!
