//! Exact arithmetic on decimal fractions held as digit sequences: the
//! binary expansion of a fraction and the double nearest to a decimal
//! number scaled by a power of two.

use vstd::prelude::*;
use vstd::arithmetic::power2::{pow2, lemma_pow2_unfold, lemma_pow2_pos, lemma_pow2_adds,
    lemma_pow2_strictly_increases, lemma2_to64, lemma2_to64_rest};
use vstd::arithmetic::div_mod::{lemma_fundamental_div_mod, lemma_fundamental_div_mod_converse};
use crate::rounding::{floor_of_nearest_double, round_half_even, msb, msb_u128, pow2_u128,
    lemma_msb_bounds, lemma_pow2_128};

verus! {

/// `10^e`.
pub open spec fn pow10(e: nat) -> nat
    decreases e,
{
    if e == 0 {
        1
    } else {
        10 * pow10((e - 1) as nat)
    }
}

/// Every element is a decimal digit.
pub open spec fn all_digits(s: Seq<u8>) -> bool {
    forall|i: int| 0 <= i < s.len() ==> #[trigger] s[i] < 10
}

/// The number a sequence of decimal digits denotes, most significant first.
pub open spec fn dval(s: Seq<u8>) -> nat
    decreases s.len(),
{
    if s.len() == 0 {
        0
    } else {
        dval(s.drop_last()) * 10 + s.last() as nat
    }
}

pub proof fn lemma_pow10_pos(e: nat)
    ensures
        pow10(e) >= 1,
    decreases e,
{
    if e > 0 {
        lemma_pow10_pos((e - 1) as nat);
    }
}

pub proof fn lemma_pow10_adds(a: nat, b: nat)
    ensures
        pow10(a + b) == pow10(a) * pow10(b),
    decreases b,
{
    if b > 0 {
        let b1 = (b - 1) as nat;
        lemma_pow10_adds(a, b1);
        assert(a + b == (a + b1) + 1);
        assert(pow10(a + b) == 10 * pow10(a + b1));
        assert(pow10(b) == 10 * pow10(b1));
        assert(pow10(a) * (10 * pow10(b1)) == 10 * (pow10(a) * pow10(b1))) by (nonlinear_arith);
        assert(pow10(a + b) == pow10(a) * pow10(b));
    } else {
        assert(pow10(0) == 1);
        assert(a + b == a);
    }
}

/// A number of `n` digits is below `10^n`.
pub proof fn lemma_dval_bound(s: Seq<u8>)
    requires
        all_digits(s),
    ensures
        dval(s) < pow10(s.len()),
    decreases s.len(),
{
    if s.len() > 0 {
        let t = s.drop_last();
        assert(all_digits(t));
        lemma_dval_bound(t);
        assert(s.last() < 10);
        assert(dval(t) * 10 + s.last() < pow10(t.len()) * 10) by (nonlinear_arith)
            requires dval(t) < pow10(t.len()), s.last() < 10;
    }
}

/// A leading digit contributes itself times ten to the number of digits
/// after it.
pub proof fn lemma_dval_prepend(a: u8, u: Seq<u8>)
    ensures
        dval(seq![a] + u) == a * pow10(u.len()) + dval(u),
    decreases u.len(),
{
    let s = seq![a] + u;
    if u.len() == 0 {
        assert(s.drop_last() =~= Seq::<u8>::empty());
        assert(s.last() == a);
        assert(pow10(0) == 1);
        assert(u =~= Seq::<u8>::empty());
    } else {
        let u1 = u.drop_last();
        assert(s.drop_last() =~= seq![a] + u1);
        assert(s.last() == u.last());
        lemma_dval_prepend(a, u1);
        let p1 = pow10(u1.len());
        assert(u.len() == u1.len() + 1);
        assert(pow10(u.len()) == 10 * p1);
        assert(dval(s) == dval(seq![a] + u1) * 10 + u.last());
        assert(dval(u) == dval(u1) * 10 + u.last());
        assert((a * p1 + dval(u1)) * 10 + u.last() == a * (10 * p1) + (dval(u1) * 10 + u.last()))
            by (nonlinear_arith);
    }
}

/// Splitting the digits at `i`: the prefix scaled by the suffix's length,
/// plus the suffix.
pub proof fn lemma_dval_split(s: Seq<u8>, i: int)
    requires
        0 <= i <= s.len(),
    ensures
        dval(s) == dval(s.take(i)) * pow10((s.len() - i) as nat) + dval(s.skip(i)),
    decreases s.len() - i,
{
    if i == s.len() {
        assert(s.take(i) =~= s);
        assert(s.skip(i) =~= Seq::<u8>::empty());
        assert(pow10(0) == 1);
        assert(dval(s.skip(i)) == 0);
        assert(pow10((s.len() - i) as nat) == 1);
        assert(dval(s.take(i)) * 1 == dval(s.take(i)));
    } else {
        lemma_dval_split(s, i + 1);
        assert(s.skip(i) =~= seq![s[i]] + s.skip(i + 1));
        lemma_dval_prepend(s[i], s.skip(i + 1));
        assert(s.take(i + 1).drop_last() =~= s.take(i));
        let p = pow10((s.len() - i - 1) as nat);
        assert(s.skip(i + 1).len() == s.len() - i - 1);
        assert(pow10(s.skip(i + 1).len()) == p);
        assert(pow10((s.len() - (i + 1)) as nat) == p);
        assert(dval(s) == dval(s.take(i + 1)) * p + dval(s.skip(i + 1)));
        assert(dval(s.skip(i)) == s[i] * p + dval(s.skip(i + 1)));
        assert(pow10((s.len() - i) as nat) == 10 * pow10((s.len() - i - 1) as nat));
        assert(s.take(i + 1).last() == s[i]);
        assert(dval(s.take(i + 1)) == dval(s.take(i)) * 10 + s[i]);
        assert((dval(s.take(i)) * 10 + s[i]) * p == dval(s.take(i)) * (10 * p) + s[i] * p)
            by (nonlinear_arith);
        assert(dval(s) == dval(s.take(i)) * (10 * p) + dval(s.skip(i)));
    }
}

/// Digits denote zero exactly when they are all zero.
pub proof fn lemma_dval_zero(s: Seq<u8>)
    ensures
        dval(s) == 0 <==> forall|i: int| 0 <= i < s.len() ==> #[trigger] s[i] == 0,
    decreases s.len(),
{
    if s.len() > 0 {
        lemma_dval_zero(s.drop_last());
        if dval(s) == 0 {
            assert forall|i: int| 0 <= i < s.len() implies #[trigger] s[i] == 0 by {
                if i < s.len() - 1 {
                    assert(s.drop_last()[i] == s[i]);
                }
            }
        }
        if forall|i: int| 0 <= i < s.len() ==> #[trigger] s[i] == 0 {
            assert forall|i: int| 0 <= i < s.len() - 1 implies #[trigger] s.drop_last()[i] == 0 by {
                assert(s[i] == 0);
            }
            assert(s.last() == s[s.len() - 1]);
        }
    }
}

/// Whether all the digits are zero.
pub fn digits_all_zero(s: &Vec<u8>) -> (z: bool)
    ensures
        z == (dval(s@) == 0),
{
    proof {
        lemma_dval_zero(s@);
    }
    let n = s.len();
    let mut i: usize = 0;
    while i < n
        invariant
            n == s@.len(),
            i <= n,
            forall|j: int| 0 <= j < i ==> #[trigger] s@[j] == 0,
        decreases n - i,
    {
        if s[i] != 0 {
            proof {
                lemma_dval_zero(s@);
                assert(s@[i as int] != 0);
            }
            return false;
        }
        i = i + 1;
    }
    true
}

/// Doubles the number that the digits denote, keeping its length: the
/// digits become `2 * v mod 10^n` and the carry out of the top is returned.
pub fn double_digits(s: &mut Vec<u8>) -> (carry: u8)
    requires
        all_digits(old(s)@),
    ensures
        all_digits(final(s)@),
        final(s)@.len() == old(s)@.len(),
        carry <= 1,
        dval(final(s)@) + carry * pow10(old(s)@.len()) == 2 * dval(old(s)@),
{
    let n = s.len();
    let ghost orig = s@;
    let mut i: usize = n;
    let mut c: u8 = 0;
    proof {
        assert(s@.skip(n as int) =~= Seq::<u8>::empty());
    }
    while i > 0
        invariant
            n == s@.len(),
            orig.len() == n,
            i <= n,
            c <= 1,
            all_digits(s@),
            all_digits(orig),
            forall|j: int| 0 <= j < i ==> s@[j] == orig[j],
            dval(s@.skip(i as int)) + c * pow10((n - i) as nat) == 2 * dval(orig.skip(i as int)),
        decreases i,
    {
        let ghost before = s@;
        let d = s[i - 1];
        let v = 2 * d + c;
        s.set(i - 1, v % 10);
        proof {
            assert(s@.skip(i - 1) =~= seq![v % 10] + before.skip(i as int));
            assert(orig.skip(i - 1) =~= seq![orig[i - 1]] + orig.skip(i as int));
            assert(s@.skip(i as int) =~= before.skip(i as int));
            lemma_dval_prepend(v % 10, before.skip(i as int));
            lemma_dval_prepend(orig[i - 1], orig.skip(i as int));
            let p = pow10((n - i) as nat);
            assert(pow10((n - (i - 1)) as nat) == 10 * p);
            assert(before.skip(i as int).len() == n - i);
            assert(orig.skip(i as int).len() == n - i);
            assert((v % 10) * p + dval(before.skip(i as int)) + (v / 10) * (10 * p) == 2 * (orig[i
                - 1] * p + dval(orig.skip(i as int)))) by (nonlinear_arith)
                requires
                    v == 2 * orig[i - 1] + c,
                    dval(before.skip(i as int)) + c * p == 2 * dval(orig.skip(i as int));
        }
        c = v / 10;
        i = i - 1;
    }
    proof {
        assert(s@.skip(0) =~= s@);
        assert(orig.skip(0) =~= orig);
    }
    c
}

/// `floor(n / d)` and `n mod d` from the quotient and remainder that a
/// candidate split gives.
pub proof fn lemma_div_mod_of(n: int, d: int, q: int, r: int)
    requires
        d > 0,
        0 <= r < d,
        n == q * d + r,
    ensures
        n / d == q,
        n % d == r,
{
    lemma_fundamental_div_mod_converse(n, d, q, r);
}

/// The first `count + 1` bits of the binary expansion of the fraction
/// `v / 10^m` that the `m` digits of `frac` denote: for each `t`, the
/// integer part of `v * 2^t / 10^m` and whether that division is exact.
pub fn fraction_bits(frac: &Vec<u8>, count: usize) -> (res: (Vec<u128>, Vec<bool>))
    requires
        all_digits(frac@),
        count <= 100,
    ensures
        res.0@.len() == count + 1,
        res.1@.len() == count + 1,
        forall|t: int|
            0 <= t <= count ==> #[trigger] res.0@[t] == (dval(frac@) * pow2(t as nat)) / pow10(
                frac@.len(),
            ) && res.0@[t] < pow2(t as nat),
        forall|t: int|
            0 <= t <= count ==> #[trigger] res.1@[t] == ((dval(frac@) * pow2(t as nat)) % pow10(
                frac@.len(),
            ) == 0),
{
    let ghost v = dval(frac@);
    let ghost m = frac@.len();
    let ghost d = pow10(m);
    let mut cur: Vec<u8> = Vec::new();
    let n = frac.len();
    let mut j: usize = 0;
    while j < n
        invariant
            n == frac@.len(),
            j <= n,
            cur@ == frac@.take(j as int),
        decreases n - j,
    {
        cur.push(frac[j]);
        proof {
            assert(cur@ =~= frac@.take(j + 1));
        }
        j = j + 1;
    }
    proof {
        assert(cur@ =~= frac@);
        lemma_pow10_pos(m);
        lemma_dval_bound(frac@);
        lemma2_to64();
        lemma_div_mod_of((v * pow2(0)) as int, d as int, 0, v as int);
    }
    let mut b: u128 = 0;
    let mut bits: Vec<u128> = Vec::new();
    let mut zeros: Vec<bool> = Vec::new();
    bits.push(0);
    zeros.push(digits_all_zero(&cur));
    let mut t: usize = 0;
    while t < count
        invariant
            t <= count <= 100,
            v == dval(frac@),
            m == frac@.len(),
            d == pow10(m),
            d >= 1,
            cur@.len() == m,
            all_digits(cur@),
            dval(cur@) < d,
            dval(cur@) + b * d == v * pow2(t as nat),
            b < pow2(t as nat),
            bits@.len() == t + 1,
            zeros@.len() == t + 1,
            bits@[t as int] == b,
            zeros@[t as int] == (dval(cur@) == 0),
            forall|u: int|
                0 <= u <= t ==> #[trigger] bits@[u] == (v * pow2(u as nat)) / d && bits@[u] < pow2(
                    u as nat,
                ),
            forall|u: int| 0 <= u <= t ==> #[trigger] zeros@[u] == ((v * pow2(u as nat)) % d == 0),
        decreases count - t,
    {
        let ghost before = dval(cur@);
        let c = double_digits(&mut cur);
        proof {
            lemma_dval_bound(cur@);
            lemma_pow2_unfold((t + 1) as nat);
            if t + 1 < 128 {
                lemma_pow2_strictly_increases((t + 1) as nat, 128);
            }
            lemma_pow2_128();
            assert(dval(cur@) + (2 * b + c) * d == v * pow2((t + 1) as nat)) by (nonlinear_arith)
                requires
                    dval(cur@) + c * d == 2 * before,
                    before + b * d == v * pow2(t as nat),
                    pow2((t + 1) as nat) == 2 * pow2(t as nat);
        }
        b = 2 * b + c as u128;
        bits.push(b);
        zeros.push(digits_all_zero(&cur));
        t = t + 1;
        proof {
            lemma_div_mod_of((v * pow2(t as nat)) as int, d as int, b as int, dval(cur@) as int);
        }
    }
    (bits, zeros)
}

/// Scaling `a + v / d` (with `v < d`) by `2^t`: the integer part is
/// `a * 2^t` plus that of `v * 2^t / d`, and the remainders agree.
pub proof fn lemma_scaled_split(a: nat, d: nat, v: nat, t: nat)
    requires
        d > 0,
        v < d,
    ensures
        ((a * d + v) * pow2(t)) / d == a * pow2(t) + (v * pow2(t)) / d,
        ((a * d + v) * pow2(t)) % d == (v * pow2(t)) % d,
{
    let p = pow2(t);
    let w = v * p;
    lemma_fundamental_div_mod(w as int, d as int);
    let q = w / d;
    let r = w % d;
    assert((a * d + v) * p == (a * p + q) * d + r) by (nonlinear_arith)
        requires w == v * p, w == d * q + r;
    lemma_div_mod_of(((a * d + v) * p) as int, d as int, (a * p + q) as int, r as int);
}

/// Doubling `n` doubles its quotient by `d` and adds one exactly when twice
/// the remainder reaches `d`; the new remainder is what is left of twice the old.
pub proof fn lemma_double_div(n: nat, d: nat)
    requires
        d > 0,
    ensures
        (2 * n) / d == 2 * (n / d) + if 2 * (n % d) >= d {
            1int
        } else {
            0int
        },
        (2 * n) % d == if 2 * (n % d) >= d {
            2 * (n % d) - d
        } else {
            2 * (n % d) as int
        },
{
    lemma_fundamental_div_mod(n as int, d as int);
    let q = n / d;
    let r = n % d;
    if 2 * r >= d {
        assert(2 * n == (2 * q + 1) * d + (2 * r - d)) by (nonlinear_arith)
            requires n == d * q + r;
        lemma_div_mod_of((2 * n) as int, d as int, (2 * q + 1) as int, 2 * r - d);
    } else {
        assert(2 * n == (2 * q) * d + 2 * r) by (nonlinear_arith)
            requires n == d * q + r;
        lemma_div_mod_of((2 * n) as int, d as int, (2 * q) as int, (2 * r) as int);
    }
}

/// A quotient reaches an integer `c` exactly when the dividend reaches `c * d`.
pub proof fn lemma_div_at_least(y: nat, d: nat, c: nat)
    requires
        d > 0,
    ensures
        y / d >= c <==> y >= c * d,
{
    lemma_fundamental_div_mod(y as int, d as int);
    if y / d >= c {
        assert(d * (y / d) >= c * d) by (nonlinear_arith)
            requires y / d >= c, d > 0;
    } else {
        assert(d * (y / d) + d <= c * d) by (nonlinear_arith)
            requires y / d < c, d > 0;
    }
}

/// `x` is a multiple of `a * b` exactly when it is a multiple of `a` and its
/// quotient by `a` a multiple of `b`.
pub proof fn lemma_multiple_of_product(x: nat, a: nat, b: nat)
    requires
        a > 0,
        b > 0,
    ensures
        x % (a * b) == 0 <==> (x % a == 0 && (x / a) % b == 0),
{
    vstd::arithmetic::div_mod::lemma_mod_breakdown(x as int, a as int, b as int);
    let y = (x / a) % b;
    let z = x % a;
    assert(x % (a * b) == a * y + z);
    assert(y >= 0 && z >= 0);
    if x % (a * b) == 0 {
        assert(a * y >= 0) by (nonlinear_arith)
            requires a > 0, y >= 0;
        assert(y == 0) by (nonlinear_arith)
            requires a * y + z == 0, a > 0, y >= 0, z >= 0;
    }
    if z == 0 && y == 0 {
        assert(a * y == 0) by (nonlinear_arith)
            requires y == 0;
    }
}

/// Halving both sides of a division by an even divisor.
pub proof fn lemma_div_double(n: nat, x: nat)
    requires
        x > 0,
    ensures
        (2 * n) / (2 * x) == n / x,
        (2 * n) % (2 * x) == 0 <==> n % x == 0,
{
    lemma_fundamental_div_mod(n as int, x as int);
    let q = n / x;
    let r = n % x;
    assert(2 * n == q * (2 * x) + 2 * r) by (nonlinear_arith)
        requires n == x * q + r;
    lemma_div_mod_of((2 * n) as int, (2 * x) as int, q as int, (2 * r) as int);
}

/// The rounded value of a quotient of at least `2^64` is at least `2^64`.
pub proof fn lemma_nearest_double_large(num: nat, den: nat)
    requires
        den > 0,
        num / den >= pow2(64),
    ensures
        floor_of_nearest_double(num, den) >= pow2(64),
{
    let i = num / den;
    let e = msb(i);
    lemma_pow2_pos(64);
    lemma_msb_bounds(i);
    if e < 64 {
        lemma_pow2_strictly_increases(e + 1, 64);
        if e + 1 == 64 {
        }
        assert(false);
    }
    let k = (e - 52) as nat;
    let p = pow2(k);
    lemma_pow2_pos(k);
    lemma_pow2_adds(52, k);
    assert(e == 52 + k);
    vstd::arithmetic::div_mod::lemma_div_denominator(num as int, den as int, p as int);
    let q = num / (den * p);
    assert(q == i / p);
    assert(i / p >= pow2(52)) by {
        lemma_div_at_least(i, p, pow2(52));
    }
    assert(round_half_even(num, den * p) >= q);
    assert(round_half_even(num, den * p) * p >= pow2(52) * p) by (nonlinear_arith)
        requires round_half_even(num, den * p) >= q, q >= pow2(52), p > 0;
    if e > 64 {
        lemma_pow2_strictly_increases(64, e);
    }
}

/// `x` capped at `u64::MAX`, which is what `as u64` does to a large double.
pub open spec fn saturate_u64(x: nat) -> u64 {
    if x > u64::MAX {
        u64::MAX
    } else {
        x as u64
    }
}

/// The double nearest to `(a + v / 10^m) * 2^shift`, where the `m` digits
/// of `frac` denote `v`, converted to `u64` as `as` converts a double: its
/// integer part, capped at `u64::MAX`.
pub fn nearest_double_count(a: u128, frac: &Vec<u8>, shift: u32) -> (r: u64)
    requires
        a < pow2(64),
        shift <= 40,
        all_digits(frac@),
    ensures
        r == saturate_u64(
            floor_of_nearest_double(
                (a as nat * pow10(frac@.len()) + dval(frac@)) * pow2(shift as nat),
                pow10(frac@.len()),
            ),
        ),
{
    let ghost m = frac@.len();
    let ghost d = pow10(m);
    let ghost v = dval(frac@);
    let ghost n: nat = a as nat * d + v;
    let ghost num: nat = n * pow2(shift as nat);
    proof {
        lemma_pow10_pos(m);
        lemma_dval_bound(frac@);
        lemma2_to64();
        lemma2_to64_rest();
        lemma_pow2_128();
        lemma_pow2_pos(shift as nat);
        if shift < 40 {
            lemma_pow2_strictly_increases(shift as nat, 40);
        }
    }
    let (bits, zeros) = fraction_bits(frac, 96);
    let s = shift as usize;
    let ps = pow2_u128(shift);
    assert(a * ps < pow2(104)) by {
        lemma_pow2_adds(64, 40);
        assert(a * ps < pow2(64) * pow2(40)) by (nonlinear_arith)
            requires a < pow2(64), ps <= pow2(40), ps > 0;
    }
    assert(pow2(104) + pow2(40) < pow2(128)) by {
        lemma_pow2_strictly_increases(104, 127);
        lemma_pow2_strictly_increases(40, 127);
        lemma_pow2_unfold(128);
    }
    assert(bits@[s as int] < pow2(40)) by {
        if s < 40 {
            lemma_pow2_strictly_increases(s as nat, 40);
        }
    }
    let i = a * ps + bits[s];
    proof {
        lemma_scaled_split(a as nat, d, v, shift as nat);
        assert(i == num / d);
    }
    if i >= 0x1_0000_0000_0000_0000u128 {
        proof {
            lemma_nearest_double_large(num, d);
        }
        return u64::MAX;
    }
    if i == 0 {
        let g = bits[s + 54];
        proof {
            assert(a == 0) by (nonlinear_arith)
                requires a * ps + bits@[s as int] == 0, ps > 0, bits@[s as int] >= 0;
            assert(n == v);
            lemma_pow2_adds(shift as nat, 54);
            assert(pow2(54) * num == v * pow2((shift + 54) as nat)) by (nonlinear_arith)
                requires
                    num == v * pow2(shift as nat),
                    pow2((shift + 54) as nat) == pow2(shift as nat) * pow2(54);
            lemma_div_at_least(v * pow2((shift + 54) as nat), d, (pow2(54) - 1) as nat);
        }
        if g >= 0x3F_FFFF_FFFF_FFFFu128 {
            return 1;
        } else {
            return 0;
        }
    }
    let e = msb_u128(i);
    assert(e <= 63) by {
        if e >= 64 {
            if e > 64 {
                lemma_pow2_strictly_increases(64, e as nat);
            }
        }
    }
    if e <= 52 {
        round_below_2_53(a, &bits, &zeros, shift, i, e, Ghost(d), Ghost(v))
    } else {
        round_from_2_53(&zeros, shift, i, e, Ghost(num), Ghost(d), Ghost(v))
    }
}


/// The rounding of `nearest_double_count` when the integer part has at
/// most 53 bits: the rounding step is a fraction of one.
fn round_below_2_53(
    a: u128,
    bits: &Vec<u128>,
    zeros: &Vec<bool>,
    shift: u32,
    i: u128,
    e: u32,
    Ghost(d): Ghost<nat>,
    Ghost(v): Ghost<nat>,
) -> (r: u64)
    requires
        d > 0,
        v < d,
        a < pow2(64),
        shift <= 40,
        bits@.len() == 97,
        zeros@.len() == 97,
        forall|t: int| 0 <= t <= 96 ==> #[trigger] bits@[t] == (v * pow2(t as nat)) / d && bits@[t] < pow2(t as nat),
        forall|t: int| 0 <= t <= 96 ==> #[trigger] zeros@[t] == ((v * pow2(t as nat)) % d == 0),
        i == ((a as nat * d + v) * pow2(shift as nat)) / d,
        1 <= i < pow2(64),
        e == msb(i as nat),
        e <= 52,
    ensures
        r == saturate_u64(floor_of_nearest_double((a as nat * d + v) * pow2(shift as nat), d)),
{
    let ghost n: nat = a as nat * d + v;
    let ghost num: nat = n * pow2(shift as nat);
    let s = shift as usize;
    let ps = pow2_u128(shift);
    proof {
        lemma2_to64();
        lemma2_to64_rest();
        lemma_pow2_128();
        lemma_pow2_pos(shift as nat);
        lemma_scaled_split(a as nat, d, v, shift as nat);
        assert(a * ps <= i) by (nonlinear_arith)
            requires i == a * ps + bits@[s as int], bits@[s as int] >= 0;
    }
    let k: u32 = 52 - e;
    let t: usize = s + k as usize;
    let pst = pow2_u128(shift + k);
    let pst1 = pow2_u128(shift + k + 1);
    let ghost n2: nat = num * pow2(k as nat);
    proof {
        lemma_pow2_adds(shift as nat, k as nat);
        lemma_pow2_adds(shift as nat, (k + 1) as nat);
        lemma_pow2_adds(e as nat + 1, (k + 1) as nat);
        lemma_pow2_unfold((k + 1) as nat);
        lemma_pow2_unfold((shift + k + 1) as nat);
        assert(n2 == n * pow2((shift + k) as nat)) by (nonlinear_arith)
            requires
                n2 == num * pow2(k as nat),
                num == n * pow2(shift as nat),
                pow2((shift + k) as nat) == pow2(shift as nat) * pow2(k as nat);
        assert(2 * n2 == n * pow2((shift + k + 1) as nat)) by (nonlinear_arith)
            requires
                n2 == n * pow2((shift + k) as nat),
                pow2((shift + k + 1) as nat) == 2 * pow2((shift + k) as nat);
        lemma_scaled_split(a as nat, d, v, (shift + k) as nat);
        lemma_scaled_split(a as nat, d, v, (shift + k + 1) as nat);
        lemma_double_div(n2, d);
        lemma_msb_bounds(i as nat);
        lemma_pow2_pos((k + 1) as nat);
        assert(e as nat + 1 + (k + 1) as nat == 54);
        assert(a * pst1 == (a * ps) * pow2((k + 1) as nat)) by (nonlinear_arith)
            requires pst1 == ps * pow2((k + 1) as nat);
        assert((a * ps) * pow2((k + 1) as nat) < pow2(e as nat + 1) * pow2((k + 1) as nat))
            by (nonlinear_arith)
            requires a * ps < pow2(e as nat + 1), pow2((k + 1) as nat) > 0;
        assert(a * pst1 < pow2(54));
        assert(a * pst <= a * pst1) by (nonlinear_arith)
            requires pst1 == 2 * pst;
        assert(bits@[t as int] < pow2(94)) by {
            if t < 94 {
                lemma_pow2_strictly_increases(t as nat, 94);
            }
        }
        assert(bits@[t + 1] < pow2(94)) by {
            if t + 1 < 94 {
                lemma_pow2_strictly_increases((t + 1) as nat, 94);
            }
        }
        lemma_pow2_strictly_increases(94, 127);
        lemma_pow2_strictly_increases(54, 127);
        lemma_pow2_unfold(128);
        assert(pow2(54) + pow2(94) < pow2(128));
    }
    let q = a * pst + bits[t];
    let g1 = a * pst1 + bits[t + 1];
    let exact1 = zeros[t + 1];
    let half = g1 % 2 == 1;
    proof {
        // q and g1 are the quotients of n2 and 2 * n2 by d
        assert(q == n2 / d);
        assert(g1 == (2 * n2) / d);
        assert(exact1 == ((2 * n2) % d == 0));
        assert(half == (2 * (n2 % d) >= d));
        // q < 2^53: the scaled value stays below 2^(e+1) * 2^k
        lemma_fundamental_div_mod(num as int, d as int);
        assert(num < (i + 1) * d) by (nonlinear_arith)
            requires num == d * i + num % d, num % d < d;
        assert(n2 < (i + 1) * pow2(k as nat) * d) by (nonlinear_arith)
            requires num < (i + 1) * d, n2 == num * pow2(k as nat), pow2(k as nat) > 0;
        lemma_div_at_least(n2, d, ((i + 1) * pow2(k as nat)) as nat);
        lemma_pow2_adds(e as nat + 1, k as nat);
        assert((i + 1) * pow2(k as nat) <= pow2(53)) by (nonlinear_arith)
            requires
                i + 1 <= pow2(e as nat + 1),
                pow2(53) == pow2(e as nat + 1) * pow2(k as nat),
                pow2(k as nat) > 0;
    }
    let mr = if half && (!exact1 || q % 2 == 1) {
        q + 1
    } else {
        q
    };
    let pk = pow2_u128(k);
    let res = mr / pk;
    proof {
        assert(mr == round_half_even(n2, d));
        assert(floor_of_nearest_double(num, d) == res);
        assert(res <= mr) by {
            lemma_pow2_pos(k as nat);
            vstd::arithmetic::div_mod::lemma_div_is_ordered_by_denominator(mr as int, 1, pk as int);
        }
        lemma_pow2_strictly_increases(53, 64);
    }
    res as u64
}

/// The rounding of `nearest_double_count` when the integer part has more
/// than 53 bits: the rounding step is a power of two of at least two.
fn round_from_2_53(
    zeros: &Vec<bool>,
    shift: u32,
    i: u128,
    e: u32,
    Ghost(num): Ghost<nat>,
    Ghost(d): Ghost<nat>,
    Ghost(v): Ghost<nat>,
) -> (r: u64)
    requires
        d > 0,
        v < d,
        shift <= 40,
        zeros@.len() == 97,
        forall|t: int| 0 <= t <= 96 ==> #[trigger] zeros@[t] == ((v * pow2(t as nat)) % d == 0),
        num % d == (v * pow2(shift as nat)) % d,
        i == num / d,
        1 <= i < pow2(64),
        e == msb(i as nat),
        53 <= e <= 63,
    ensures
        r == saturate_u64(floor_of_nearest_double(num, d)),
{
    let s = shift as usize;
    proof {
        lemma2_to64();
        lemma2_to64_rest();
        lemma_pow2_128();
    }
    let k: u32 = e - 52;
    let pk = pow2_u128(k);
    let ph = pow2_u128(k - 1);
    let q = i / pk;
    let h = (i / ph) % 2 == 1;
    let exact = zeros[s] && i % ph == 0;
    proof {
        lemma_pow2_pos(k as nat);
        lemma_pow2_pos((k - 1) as nat);
        lemma_pow2_unfold(k as nat);
        let dp: nat = d * pk as nat;
        let dh: nat = d * ph as nat;
        assert(dp == 2 * dh) by (nonlinear_arith)
            requires pk == 2 * ph, dp == d * pk, dh == d * ph;
        assert(dp > 0 && dh > 0) by (nonlinear_arith)
            requires d > 0, pk > 0, ph > 0, dp == d * pk, dh == d * ph;
        vstd::arithmetic::div_mod::lemma_div_denominator(num as int, d as int, pk as int);
        vstd::arithmetic::div_mod::lemma_div_denominator(num as int, d as int, ph as int);
        lemma_double_div(num, dp);
        lemma_div_double(num, dh);
        lemma_multiple_of_product(num, d, ph as nat);
        assert(q == num / dp);
        assert(h == (2 * (num % dp) >= dp));
        assert(exact == ((2 * num) % dp == 0));
    }
    let mr = if h && (!exact || q % 2 == 1) {
        q + 1
    } else {
        q
    };
    proof {
        assert(mr == round_half_even(num, d * pk as nat));
        vstd::arithmetic::div_mod::lemma_fundamental_div_mod(i as int, pk as int);
        assert(mr * pk <= i + pk) by (nonlinear_arith)
            requires mr <= q + 1, i == pk * q + i % pk, i % pk >= 0, pk > 0;
        assert(pk <= pow2(11)) by {
            if k < 11 {
                lemma_pow2_strictly_increases(k as nat, 11);
            }
        }
    }
    let res = mr * pk;
    proof {
        assert(floor_of_nearest_double(num, d) == res);
    }
    if res > 0xFFFF_FFFF_FFFF_FFFFu128 {
        u64::MAX
    } else {
        res as u64
    }
}

} // verus!
