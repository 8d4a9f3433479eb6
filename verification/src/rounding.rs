//! Binary magnitudes and round-to-nearest-even: the arithmetic by which the
//! library reproduces, in integers, byte counts computed in double precision.

use vstd::prelude::*;
use vstd::arithmetic::power2::{pow2, lemma_pow2_pos, lemma_pow2_unfold, lemma_pow2_strictly_increases, lemma_pow2_adds};

verus! {

/// The position of the highest set bit of `n` (0 for `n <= 1`).
pub open spec fn msb(n: nat) -> nat
    decreases n,
{
    if n <= 1 {
        0
    } else {
        1 + msb(n / 2)
    }
}

/// The integer nearest to `n / d`, a tie going to the even one.
pub open spec fn round_half_even(n: nat, d: nat) -> nat
    recommends
        d > 0,
{
    let q = n / d;
    let r = n % d;
    if 2 * r > d || (2 * r == d && q % 2 == 1) {
        q + 1
    } else {
        q
    }
}

/// The integer part of the binary floating-point value with a 53-bit
/// significand that lies nearest to `num / den` (a tie going to the even
/// significand).  Values in `[2^e, 2^(e+1))` are rounded to multiples of
/// `2^(e-52)`; below one, the nearest such value is at most one, and it is
/// one exactly when `num / den >= 1 - 2^-54`.
pub open spec fn floor_of_nearest_double(num: nat, den: nat) -> nat
    recommends
        den > 0,
{
    let i = num / den;
    if i == 0 {
        if pow2(54) * num >= (pow2(54) - 1) * den {
            1
        } else {
            0
        }
    } else {
        let e = msb(i);
        if e <= 52 {
            round_half_even(num * pow2((52 - e) as nat), den) / pow2((52 - e) as nat)
        } else {
            round_half_even(num, den * pow2((e - 52) as nat)) * pow2((e - 52) as nat)
        }
    }
}

/// `msb(n)` brackets `n` between two powers of two.
pub proof fn lemma_msb_bounds(n: nat)
    requires
        n >= 1,
    ensures
        pow2(msb(n)) <= n < pow2(msb(n) + 1),
    decreases n,
{
    lemma_pow2_unfold(msb(n) + 1);
    if n <= 1 {
        assert(pow2(0) == 1) by {
            vstd::arithmetic::power2::lemma2_to64();
        }
        assert(pow2(1) == 2) by {
            vstd::arithmetic::power2::lemma2_to64();
        }
    } else {
        lemma_msb_bounds(n / 2);
        lemma_pow2_unfold(msb(n));
    }
}

/// The exponent bracketing `n` between consecutive powers of two is `msb(n)`.
pub proof fn lemma_msb_unique(n: nat, e: nat)
    requires
        pow2(e) <= n < pow2(e + 1),
    ensures
        msb(n) == e,
{
    lemma_pow2_pos(e);
    lemma_msb_bounds(n);
    if msb(n) < e {
        if msb(n) + 1 < e {
            lemma_pow2_strictly_increases(msb(n) + 1, e);
        }
    } else if msb(n) > e {
        if e + 1 < msb(n) {
            lemma_pow2_strictly_increases(e + 1, msb(n));
        }
    }
}

/// `2^128` is one more than the largest `u128`.
pub proof fn lemma_pow2_128()
    ensures
        pow2(128) == u128::MAX + 1,
        pow2(64) == u64::MAX + 1,
{
    vstd::arithmetic::power2::lemma2_to64_rest();
    lemma_pow2_adds(64, 64);
}

/// `2^e` as a machine integer.
pub fn pow2_u128(e: u32) -> (p: u128)
    requires
        e < 128,
    ensures
        p == pow2(e as nat),
{
    let mut p: u128 = 1;
    let mut i: u32 = 0;
    proof {
        vstd::arithmetic::power2::lemma2_to64();
    }
    while i < e
        invariant
            i <= e < 128,
            p == pow2(i as nat),
        decreases e - i,
    {
        proof {
            lemma_pow2_unfold((i + 1) as nat);
            if i + 1 < 128 {
                lemma_pow2_strictly_increases((i + 1) as nat, 128);
            }
            lemma_pow2_128();
        }
        p = p * 2;
        i = i + 1;
    }
    p
}

/// The position of the highest set bit of `n`.
pub fn msb_u128(n: u128) -> (e: u32)
    requires
        n >= 1,
    ensures
        e == msb(n as nat),
        e < 128,
        pow2(e as nat) <= n < pow2(e as nat + 1),
{
    let mut p: u128 = 1;
    let mut e: u32 = 0;
    proof {
        vstd::arithmetic::power2::lemma2_to64();
    }
    while p <= n / 2
        invariant
            1 <= p <= n,
            p == pow2(e as nat),
            e < 128,
        decreases n - p,
    {
        proof {
            lemma_pow2_unfold((e + 1) as nat);
            lemma_pow2_pos(e as nat);
            if e + 1 >= 128 {
                if e + 1 > 128 {
                    lemma_pow2_strictly_increases(128, (e + 1) as nat);
                }
                lemma_pow2_128();
                assert(false);
            }
        }
        p = p * 2;
        e = e + 1;
    }
    proof {
        lemma_pow2_unfold((e + 1) as nat);
        lemma_msb_unique(n as nat, e as nat);
    }
    e
}

/// `round_half_even(n, d)` on machine integers.
pub fn round_half_even_u128(n: u128, d: u128) -> (r: u128)
    requires
        d > 0,
        n / d < u128::MAX,
    ensures
        r == round_half_even(n as nat, d as nat),
{
    let q = n / d;
    let rem = n % d;
    if rem > d - rem || (rem == d - rem && q % 2 == 1) {
        q + 1
    } else {
        q
    }
}

} // verus!
