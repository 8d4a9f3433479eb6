//! The syntax of the decimal numbers that `f64::from_str` reads, and the
//! byte count that such a number, scaled by a power of two, comes to.

use vstd::prelude::*;
use vstd::string::*;
use vstd::arithmetic::power2::{pow2, lemma_pow2_pos, lemma_pow2_adds, lemma_pow2_strictly_increases,
    lemma2_to64, lemma2_to64_rest};
use crate::text::{is_ascii_digit, digits_value};
use crate::rounding::{floor_of_nearest_double, lemma_pow2_128, msb, round_half_even, lemma_msb_bounds,
    lemma_msb_unique};
use crate::decimal::{pow10, dval, all_digits, saturate_u64, nearest_double_count, digits_all_zero,
    lemma_pow10_pos, lemma_pow10_adds, lemma_dval_bound, lemma_dval_split,
    lemma_nearest_double_large, lemma_div_at_least};

verus! {

/// `c` is the small letter `w` or its ASCII capital.
pub open spec fn is_letter_either_case(c: char, w: char) -> bool {
    c == w || ('A' <= c <= 'Z' && c as u32 + 32 == w as u32)
}

/// `s` spells the small-letter word `w`, in any mix of ASCII cases.
pub open spec fn spells(s: Seq<char>, w: Seq<char>) -> bool {
    s.len() == w.len() && forall|i: int| 0 <= i < s.len() ==> is_letter_either_case(#[trigger] s[i], w[i])
}

/// `nan` in any case.
pub open spec fn is_nan_word(s: Seq<char>) -> bool {
    spells(s, seq!['n', 'a', 'n'])
}

/// `inf` or `infinity` in any case.
pub open spec fn is_inf_word(s: Seq<char>) -> bool {
    spells(s, seq!['i', 'n', 'f']) || spells(s, seq!['i', 'n', 'f', 'i', 'n', 'i', 't', 'y'])
}

/// The length of a leading `+` or `-`.
pub open spec fn sign_len(s: Seq<char>) -> int {
    if s.len() > 0 && (s[0] == '+' || s[0] == '-') {
        1
    } else {
        0
    }
}

/// How many ASCII digits follow one another from position `i` on.
pub open spec fn digit_run(s: Seq<char>, i: int) -> int
    decreases s.len() - i,
{
    if 0 <= i < s.len() && is_ascii_digit(s[i]) {
        1 + digit_run(s, i + 1)
    } else {
        0
    }
}

/// The digits before the point of an unsigned decimal literal `r`.
pub open spec fn int_len(r: Seq<char>) -> int {
    digit_run(r, 0)
}

/// Whether a point follows the integer digits.
pub open spec fn has_point(r: Seq<char>) -> bool {
    int_len(r) < r.len() && r[int_len(r)] == '.'
}

/// The digits after the point.
pub open spec fn frac_len(r: Seq<char>) -> int {
    if has_point(r) {
        digit_run(r, int_len(r) + 1)
    } else {
        0
    }
}

/// Where the digits and the point end.
pub open spec fn mantissa_end(r: Seq<char>) -> int {
    if has_point(r) {
        int_len(r) + 1 + frac_len(r)
    } else {
        int_len(r)
    }
}

/// Where the exponent's digits begin (after `e` or `E` and a sign).
pub open spec fn exp_digits_start(r: Seq<char>) -> int {
    mantissa_end(r) + 1 + sign_len(r.skip(mantissa_end(r) + 1))
}

/// `r` is an unsigned decimal literal: digits with at most one point
/// among or around them, at least one digit, and optionally `e` or `E`, a
/// sign and one or more digits.
pub open spec fn is_decimal_literal(r: Seq<char>) -> bool {
    &&& int_len(r) + frac_len(r) >= 1
    &&& (mantissa_end(r) == r.len() || {
        &&& (r[mantissa_end(r)] == 'e' || r[mantissa_end(r)] == 'E')
        &&& digit_run(r, exp_digits_start(r)) >= 1
        &&& exp_digits_start(r) + digit_run(r, exp_digits_start(r)) == r.len()
    })
}

/// The exponent of a decimal literal (0 when it has none).
pub open spec fn literal_exponent(r: Seq<char>) -> int {
    if mantissa_end(r) == r.len() {
        0
    } else {
        let v = digits_value(r.subrange(exp_digits_start(r), r.len() as int)) as int;
        if r[mantissa_end(r) + 1] == '-' {
            -v
        } else {
            v
        }
    }
}

/// All the digits of a decimal literal's mantissa, those before the point
/// and those after it.
pub open spec fn mantissa_digits(r: Seq<char>) -> Seq<char> {
    if has_point(r) {
        r.subrange(0, int_len(r)) + r.subrange(int_len(r) + 1, int_len(r) + 1 + frac_len(r))
    } else {
        r.subrange(0, int_len(r))
    }
}

/// What `(f64::from_str(s)? * 2^shift as f64) as u64` gives: `None` when
/// `s` is not a float literal; for a literal, the double nearest to its
/// value times `2^shift`, with NaN and negative values giving 0 and large
/// values (infinity among them) `u64::MAX`.
pub open spec fn scaled_float_count(s: Seq<char>, shift: nat) -> Option<u64> {
    let negative = s.len() > 0 && s[0] == '-';
    let r = s.skip(sign_len(s));
    if is_nan_word(r) {
        Some(0)
    } else if is_inf_word(r) {
        Some(
            if negative {
                0
            } else {
                u64::MAX
            },
        )
    } else if is_decimal_literal(r) {
        if negative {
            Some(0)
        } else {
            let e10 = literal_exponent(r) - frac_len(r);
            let num = digits_value(mantissa_digits(r)) * pow10(
                if e10 >= 0 {
                    e10 as nat
                } else {
                    0
                },
            ) * pow2(shift);
            let den = pow10(
                if e10 < 0 {
                    (-e10) as nat
                } else {
                    0
                },
            );
            Some(saturate_u64(floor_of_nearest_double(num, den)))
        }
    } else {
        None
    }
}

/// Exponents from this magnitude on are all the same to a count: they
/// make any nonzero mantissa overflow or vanish.
pub const EXPONENT_CAP: u128 = 1_000_000_000_000_000_000_000_000_000_000;

/// The characters of `s`, one by one.
pub fn chars_of(s: &str) -> (cs: Vec<char>)
    ensures
        cs@ == s@,
{
    let n = s.unicode_len();
    let mut cs: Vec<char> = Vec::new();
    let mut i: usize = 0;
    while i < n
        invariant
            n == s@.len(),
            i <= n,
            cs@ == s@.take(i as int),
        decreases n - i,
    {
        cs.push(s.get_char(i));
        proof {
            assert(cs@ =~= s@.take(i + 1));
        }
        i = i + 1;
    }
    proof {
        assert(s@.take(n as int) =~= s@);
    }
    cs
}

/// Whether the characters from `p` on spell the small-letter word `w`.
pub fn spells_word(cs: &Vec<char>, p: usize, w: &[char]) -> (b: bool)
    requires
        p <= cs@.len(),
    ensures
        b == spells(cs@.skip(p as int), w@),
{
    let n = cs.len();
    if n - p != w.len() {
        return false;
    }
    let mut i: usize = 0;
    while i < w.len()
        invariant
            n == cs@.len(),
            p <= n,
            n - p == w@.len(),
            i <= w@.len(),
            forall|k: int| 0 <= k < i ==> is_letter_either_case(#[trigger] cs@.skip(p as int)[k], w@[k]),
        decreases w@.len() - i,
    {
        let c = cs[p + i];
        let wc = w[i];
        let ok = c == wc || ('A' <= c && c <= 'Z' && (c as u32) + 32 == wc as u32);
        assert(cs@.skip(p as int)[i as int] == c);
        if !ok {
            return false;
        }
        i = i + 1;
    }
    true
}

/// A run of digits read from a later starting point.
pub proof fn lemma_digit_run_skip(s: Seq<char>, p: int, k: int)
    requires
        0 <= p <= s.len(),
        0 <= k,
    ensures
        digit_run(s.skip(p), k) == digit_run(s, p + k),
    decreases s.len() - (p + k),
{
    if p + k < s.len() {
        lemma_digit_run_skip(s, p, k + 1);
    }
}

/// The digit values of a string of ASCII digits.
pub open spec fn digit_bytes(s: Seq<char>) -> Seq<u8> {
    s.map_values(|c: char| (c as u32 - 48) as u8)
}

/// ASCII digits denote the same number as their digit values.
pub proof fn lemma_digit_bytes_value(s: Seq<char>)
    requires
        forall|i: int| 0 <= i < s.len() ==> is_ascii_digit(#[trigger] s[i]),
    ensures
        all_digits(digit_bytes(s)),
        dval(digit_bytes(s)) == digits_value(s),
        digit_bytes(s).len() == s.len(),
    decreases s.len(),
{
    if s.len() > 0 {
        let t = s.drop_last();
        assert(digit_bytes(s).drop_last() =~= digit_bytes(t));
        lemma_digit_bytes_value(t);
        assert(is_ascii_digit(s[s.len() - 1]));
    }
}

/// Appends the digit values of `cs[a..b]` to `out`.
pub fn push_digit_bytes(out: &mut Vec<u8>, cs: &Vec<char>, a: usize, b: usize)
    requires
        a <= b <= cs@.len(),
        forall|k: int| a <= k < b ==> is_ascii_digit(#[trigger] cs@[k]),
    ensures
        final(out)@ == old(out)@ + digit_bytes(cs@.subrange(a as int, b as int)),
{
    let mut i = a;
    while i < b
        invariant
            a <= i <= b <= cs@.len(),
            forall|k: int| a <= k < b ==> is_ascii_digit(#[trigger] cs@[k]),
            out@ == old(out)@ + digit_bytes(cs@.subrange(a as int, i as int)),
        decreases b - i,
    {
        let c = cs[i];
        assert(is_ascii_digit(cs@[i as int]));
        out.push((c as u32 - 48) as u8);
        proof {
            assert(digit_bytes(cs@.subrange(a as int, i + 1)) =~= digit_bytes(cs@.subrange(a as int, i as int)).push(
                (c as u32 - 48) as u8,
            ));
        }
        i = i + 1;
    }
}

/// The number that the digits `cs[a..b]` denote, capped at `EXPONENT_CAP`.
pub fn capped_digits_value(cs: &Vec<char>, a: usize, b: usize) -> (v: u128)
    requires
        a <= b <= cs@.len(),
        forall|k: int| a <= k < b ==> is_ascii_digit(#[trigger] cs@[k]),
    ensures
        v == if digits_value(cs@.subrange(a as int, b as int)) >= EXPONENT_CAP {
            EXPONENT_CAP as nat
        } else {
            digits_value(cs@.subrange(a as int, b as int))
        },
{
    let mut v: u128 = 0;
    let mut i = a;
    while i < b
        invariant
            a <= i <= b <= cs@.len(),
            forall|k: int| a <= k < b ==> is_ascii_digit(#[trigger] cs@[k]),
            v == if digits_value(cs@.subrange(a as int, i as int)) >= EXPONENT_CAP {
                EXPONENT_CAP as nat
            } else {
                digits_value(cs@.subrange(a as int, i as int))
            },
        decreases b - i,
    {
        let c = cs[i];
        assert(is_ascii_digit(cs@[i as int]));
        let d = (c as u32 - 48) as u128;
        proof {
            assert(cs@.subrange(a as int, i + 1).drop_last() =~= cs@.subrange(a as int, i as int));
        }
        if v < EXPONENT_CAP {
            v = v * 10 + d;
            if v > EXPONENT_CAP {
                v = EXPONENT_CAP;
            }
        }
        i = i + 1;
    }
    v
}

/// The end of the run of digits that starts at `i`.
pub fn scan_digits(cs: &Vec<char>, i: usize) -> (j: usize)
    requires
        i <= cs@.len(),
    ensures
        i <= j <= cs@.len(),
        j - i == digit_run(cs@, i as int),
        forall|k: int| i <= k < j ==> is_ascii_digit(#[trigger] cs@[k]),
{
    let n = cs.len();
    let mut j = i;
    while j < n && '0' <= cs[j] && cs[j] <= '9'
        invariant
            i <= j <= n,
            n == cs@.len(),
            forall|k: int| i <= k < j ==> is_ascii_digit(#[trigger] cs@[k]),
            digit_run(cs@, i as int) == (j - i) + digit_run(cs@, j as int),
        decreases n - j,
    {
        j = j + 1;
    }
    j
}

/// The number that the digits `d[a..b]` denote, capped at `2^64`.
pub fn capped_dval(d: &Vec<u8>, a: usize, b: usize) -> (v: u128)
    requires
        a <= b <= d@.len(),
        all_digits(d@),
    ensures
        v == if dval(d@.subrange(a as int, b as int)) >= pow2(64) {
            pow2(64)
        } else {
            dval(d@.subrange(a as int, b as int))
        },
{
    proof {
        lemma_pow2_128();
    }
    let mut v: u128 = 0;
    let mut i = a;
    while i < b
        invariant
            a <= i <= b <= d@.len(),
            all_digits(d@),
            pow2(64) == u64::MAX + 1,
            v == if dval(d@.subrange(a as int, i as int)) >= pow2(64) {
                pow2(64)
            } else {
                dval(d@.subrange(a as int, i as int))
            },
        decreases b - i,
    {
        let x = d[i];
        assert(x < 10);
        proof {
            assert(d@.subrange(a as int, i + 1).drop_last() =~= d@.subrange(a as int, i as int));
        }
        if v < 0x1_0000_0000_0000_0000u128 {
            v = v * 10 + x as u128;
            if v > 0x1_0000_0000_0000_0000u128 {
                v = 0x1_0000_0000_0000_0000u128;
            }
        }
        i = i + 1;
    }
    v
}

/// `10^e` for the small exponents a count can reach.
pub proof fn lemma_pow10_facts()
    ensures
        pow10(20) > pow2(64),
        pow10(45) > pow2(100),
        pow10(0) == 1,
{
    reveal_with_fuel(pow10, 46);
    lemma2_to64();
    lemma2_to64_rest();
    lemma_pow2_adds(64, 36);
    assert(pow2(36) == 0x1000000000);
    assert(pow10(20) == 100000000000000000000);
    assert(pow10(45) == 1000000000000000000000000000000000000000000000);
}

/// Larger powers of ten are larger.
pub proof fn lemma_pow10_monotone(a: nat, b: nat)
    requires
        a <= b,
    ensures
        pow10(a) <= pow10(b),
    decreases b,
{
    if a < b {
        lemma_pow10_monotone(a, (b - 1) as nat);
        lemma_pow10_pos((b - 1) as nat);
    }
}

/// The count of a nonnegative decimal number with mantissa digits
/// `digits`, the first `int_digits` of them before the point, and decimal
/// exponent `exp`, scaled by `2^shift`; `exp` is given as a sign and a
/// magnitude capped at `EXPONENT_CAP`.
pub fn count_from_digits(
    digits: &Vec<u8>,
    int_digits: usize,
    exp_negative: bool,
    exp_mag: u128,
    shift: u32,
    Ghost(exp): Ghost<int>,
) -> (r: u64)
    requires
        all_digits(digits@),
        int_digits <= digits@.len(),
        shift <= 40,
        exp_mag <= EXPONENT_CAP,
        exp_mag < EXPONENT_CAP ==> exp == if exp_negative {
            -(exp_mag as int)
        } else {
            exp_mag as int
        },
        exp_mag == EXPONENT_CAP ==> if exp_negative {
            exp <= -(EXPONENT_CAP as int)
        } else {
            exp >= EXPONENT_CAP
        },
    ensures
        ({
            let e10 = exp - (digits@.len() - int_digits);
            r == saturate_u64(
                floor_of_nearest_double(
                    dval(digits@) * pow10(
                        if e10 >= 0 {
                            e10 as nat
                        } else {
                            0
                        },
                    ) * pow2(shift as nat),
                    pow10(
                        if e10 < 0 {
                            (-e10) as nat
                        } else {
                            0
                        },
                    ),
                ),
            )
        }),
{
    let ghost l = digits@.len();
    let ghost v = dval(digits@);
    let ghost e10 = exp - (l - int_digits);
    let ghost num = v * pow10(if e10 >= 0 { e10 as nat } else { 0 }) * pow2(shift as nat);
    let ghost den = pow10(if e10 < 0 { (-e10) as nat } else { 0 });
    proof {
        lemma_pow10_facts();
        lemma2_to64();
        lemma2_to64_rest();
        lemma_pow2_128();
        lemma_pow2_pos(shift as nat);
        lemma_pow10_pos(if e10 < 0 { (-e10) as nat } else { 0 });
        lemma_pow10_pos(if e10 >= 0 { e10 as nat } else { 0 });
        lemma_dval_bound(digits@);
    }
    if digits_all_zero(digits) {
        proof {
            assert(num == 0) by (nonlinear_arith)
                requires v == 0, num == v * pow10(if e10 >= 0 { e10 as nat } else { 0 }) * pow2(shift as nat);
            assert(floor_of_nearest_double(num, den) == 0) by {
                assert(num / den == 0);
                assert(pow2(54) * num == 0) by (nonlinear_arith)
                    requires num == 0;
                lemma_pow2_strictly_increases(0, 54);
                assert((pow2(54) - 1) * den > 0) by (nonlinear_arith)
                    requires pow2(54) > 1, den >= 1;
            }
        }
        return 0;
    }
    let len = digits.len();
    assert(len < 0x1_0000_0000_0000_0000u128);
    let p: i128 = if exp_negative {
        int_digits as i128 - exp_mag as i128
    } else {
        int_digits as i128 + exp_mag as i128
    };
    if p <= -45 {
        proof {
            // the number is below 10^-45
            assert(e10 < 0);
            let k = (-e10) as nat;
            assert(k >= l + 45);
            lemma_pow10_adds(l, (k - l) as nat);
            lemma_pow10_monotone(45, (k - l) as nat);
            assert(num == v * pow2(shift as nat)) by (nonlinear_arith)
                requires num == v * pow10(0) * pow2(shift as nat), pow10(0) == 1;
            lemma_pow2_adds(shift as nat, 54);
            if shift < 40 {
                lemma_pow2_strictly_increases(shift as nat, 40);
            }
            lemma_pow2_adds(54, 40);
            lemma_pow2_adds(94, 6);
            assert(pow2(54) * num < (pow2(54) - 1) * den) by (nonlinear_arith)
                requires
                    v < pow10(l),
                    num == v * pow2(shift as nat),
                    pow2(shift as nat) <= pow2(40),
                    den == pow10(l) * pow10((k - l) as nat),
                    pow10((k - l) as nat) >= pow10(45),
                    pow10(45) > pow2(100),
                    pow2(100) == pow2(94) * pow2(6),
                    pow2(94) == pow2(54) * pow2(40),
                    pow2(6) == 64,
                    pow2(54) > 1;
            assert(num / den == 0) by {
                lemma_div_at_least(num, den, 1);
                assert(num < den) by (nonlinear_arith)
                    requires pow2(54) * num < (pow2(54) - 1) * den, pow2(54) > 1, num >= 0;
            }
        }
        return 0;
    }
    if p >= len as i128 {
        if p - len as i128 > 20 {
            proof {
                assert(e10 > 20);
                lemma_pow10_monotone(20, e10 as nat);
                assert(v >= 1);
                assert(num >= pow2(64)) by (nonlinear_arith)
                    requires
                        v >= 1,
                        num == v * pow10(e10 as nat) * pow2(shift as nat),
                        pow10(e10 as nat) >= pow10(20),
                        pow10(20) > pow2(64),
                        pow2(shift as nat) >= 1;
                assert(den == 1);
                lemma_nearest_double_large(num, den);
            }
            return u64::MAX;
        }
        let mut a = capped_dval(digits, 0, len);
        proof {
            assert(digits@.subrange(0, len as int) =~= digits@);
        }
        let mut k: i128 = p - len as i128;
        let ghost e = k as nat;
        assert(e == e10);
        while k > 0
            invariant
                0 <= k <= e,
                e <= 20,
                a <= pow2(64),
                a < pow2(64) ==> a == v * pow10((e - k) as nat),
                a == pow2(64) ==> v * pow10((e - k) as nat) >= pow2(64),
                pow2(64) == u64::MAX + 1,
            decreases k,
        {
            proof {
                assert(pow10((e - k + 1) as nat) == 10 * pow10((e - k) as nat));
            }
            if a < 0x1_0000_0000_0000_0000u128 {
                a = a * 10;
                if a > 0x1_0000_0000_0000_0000u128 {
                    a = 0x1_0000_0000_0000_0000u128;
                }
            }
            proof {
                assert(v * pow10((e - k + 1) as nat) == 10 * (v * pow10((e - k) as nat)))
                    by (nonlinear_arith)
                    requires pow10((e - k + 1) as nat) == 10 * pow10((e - k) as nat);
            }
            k = k - 1;
        }
        if a >= 0x1_0000_0000_0000_0000u128 {
            proof {
                assert(num >= pow2(64)) by (nonlinear_arith)
                    requires
                        v * pow10(e) >= pow2(64),
                        num == v * pow10(e) * pow2(shift as nat),
                        pow2(shift as nat) >= 1;
                lemma_nearest_double_large(num, den);
            }
            return u64::MAX;
        }
        let empty: Vec<u8> = Vec::new();
        proof {
            assert(dval(empty@) == 0);
            assert(empty@.len() == 0);
            assert(a == v * pow10(e));
            assert(e10 >= 0);
            assert(den == 1);
            assert(num == (a * pow10(0) + dval(empty@)) * pow2(shift as nat)) by (nonlinear_arith)
                requires
                    num == v * pow10(e) * pow2(shift as nat),
                    a == v * pow10(e),
                    pow10(0) == 1,
                    dval(empty@) == 0;
        }
        return nearest_double_count(a, &empty, shift);
    }
    if p >= 0 {
        let pu = p as usize;
        let a = capped_dval(digits, 0, pu);
        let mut frac: Vec<u8> = Vec::new();
        let mut j = pu;
        while j < len
            invariant
                pu <= j <= len,
                len == digits@.len(),
                all_digits(digits@),
                frac@ == digits@.subrange(pu as int, j as int),
            decreases len - j,
        {
            frac.push(digits[j]);
            proof {
                assert(frac@ =~= digits@.subrange(pu as int, j + 1));
            }
            j = j + 1;
        }
        proof {
            assert(e10 == pu - len);
            assert(digits@.take(pu as int) =~= digits@.subrange(0, pu as int));
            assert(digits@.skip(pu as int) =~= frac@);
            lemma_dval_split(digits@, pu as int);
            assert(all_digits(frac@));
            lemma_dval_bound(frac@);
            assert(frac@.len() == len - pu);
            assert(den == pow10(frac@.len()));
            assert(num == v * pow2(shift as nat)) by (nonlinear_arith)
                requires num == v * pow10(0) * pow2(shift as nat), pow10(0) == 1;
            assert(v == dval(digits@.subrange(0, pu as int)) * den + dval(frac@));
        }
        if a >= 0x1_0000_0000_0000_0000u128 {
            proof {
                let ai = dval(digits@.subrange(0, pu as int));
                assert(num >= ai * den) by (nonlinear_arith)
                    requires num == (ai * den + dval(frac@)) * pow2(shift as nat), pow2(shift as nat) >= 1;
                lemma_div_at_least(num, den, ai);
                lemma_nearest_double_large(num, den);
            }
            return u64::MAX;
        }
        return nearest_double_count(a, &frac, shift);
    }
    let zeros_count = (-p) as usize;
    let mut frac: Vec<u8> = Vec::new();
    let mut j: usize = 0;
    while j < zeros_count
        invariant
            j <= zeros_count,
            frac@.len() == j,
            forall|t: int| 0 <= t < j ==> #[trigger] frac@[t] == 0,
        decreases zeros_count - j,
    {
        frac.push(0);
        j = j + 1;
    }
    let ghost zs = frac@;
    let mut t: usize = 0;
    while t < len
        invariant
            t <= len,
            len == digits@.len(),
            zs.len() == zeros_count,
            forall|u: int| 0 <= u < zeros_count ==> #[trigger] zs[u] == 0,
            frac@ == zs + digits@.subrange(0, t as int),
        decreases len - t,
    {
        frac.push(digits[t]);
        proof {
            assert(frac@ =~= zs + digits@.subrange(0, t + 1));
        }
        t = t + 1;
    }
    proof {
        assert(digits@.subrange(0, len as int) =~= digits@);
        assert(e10 == p - len);
        assert(frac@.take(zeros_count as int) =~= zs);
        assert(frac@.skip(zeros_count as int) =~= digits@);
        lemma_dval_split(frac@, zeros_count as int);
        crate::decimal::lemma_dval_zero(zs);
        assert(all_digits(frac@));
        assert(frac@.len() == (-e10) as nat);
        assert(dval(zs) == 0);
        assert(dval(frac@) == dval(zs) * pow10(len as nat) + v);
        assert(dval(frac@) == v) by (nonlinear_arith)
            requires dval(frac@) == dval(zs) * pow10(len as nat) + v, dval(zs) == 0;
        assert(num == v * pow2(shift as nat)) by (nonlinear_arith)
            requires num == v * pow10(0) * pow2(shift as nat), pow10(0) == 1;
        assert(num == (0 * den + dval(frac@)) * pow2(shift as nat));
    }
    nearest_double_count(0, &frac, shift)
}

/// The exponent part of the literal `r = cs[p..]`, whose mantissa ends at
/// `fe`: `(false, 0)` when there is none, its sign and capped magnitude
/// when it is well formed, `None` when it is not.
fn scan_exponent(cs: &Vec<char>, p: usize, fe: usize, Ghost(r): Ghost<Seq<char>>) -> (res: Option<
    (bool, u128),
>)
    requires
        p <= fe <= cs@.len(),
        r == cs@.skip(p as int),
        mantissa_end(r) == fe - p,
    ensures
        res is Some <==> (mantissa_end(r) == r.len() || {
            &&& (r[mantissa_end(r)] == 'e' || r[mantissa_end(r)] == 'E')
            &&& digit_run(r, exp_digits_start(r)) >= 1
            &&& exp_digits_start(r) + digit_run(r, exp_digits_start(r)) == r.len()
        }),
        res matches Some(e) ==> ({
            let (exp_negative, exp_mag) = e;
            let exp = literal_exponent(r);
            &&& exp_mag <= EXPONENT_CAP
            &&& exp_mag < EXPONENT_CAP ==> exp == if exp_negative {
                -(exp_mag as int)
            } else {
                exp_mag as int
            }
            &&& exp_mag == EXPONENT_CAP ==> if exp_negative {
                exp <= -(EXPONENT_CAP as int)
            } else {
                exp >= EXPONENT_CAP
            }
        }),
{
    let n = cs.len();
    if fe == n {
        return Some((false, 0));
    }
    assert(r[mantissa_end(r)] == cs@[fe as int]);
    if !(cs[fe] == 'e' || cs[fe] == 'E') {
        return None;
    }
    let mut exp_negative = false;
    let mut q = fe + 1;
    if q < n && (cs[q] == '+' || cs[q] == '-') {
        exp_negative = cs[q] == '-';
        q = q + 1;
    }
    proof {
        assert(r.skip(mantissa_end(r) + 1) =~= cs@.skip(fe + 1));
        assert(exp_digits_start(r) == q - p);
        if fe + 1 < n {
            assert(r[mantissa_end(r) + 1] == cs@[fe + 1]);
        }
    }
    let qe = scan_digits(cs, q);
    proof {
        lemma_digit_run_skip(cs@, p as int, q - p);
    }
    if qe == q || qe != n {
        return None;
    }
    let exp_mag = capped_digits_value(cs, q, qe);
    proof {
        assert(r.subrange(exp_digits_start(r), r.len() as int) =~= cs@.subrange(q as int, qe as int));
        assert(exp_negative == (r[mantissa_end(r) + 1] == '-'));
    }
    Some((exp_negative, exp_mag))
}

/// The digit values of the mantissa of `r = cs[p..]`, whose integer digits
/// end at `ie` and whose fraction digits (if `point`) end at `fe`.
fn mantissa_bytes(cs: &Vec<char>, p: usize, ie: usize, point: bool, fe: usize, Ghost(r): Ghost<
    Seq<char>,
>) -> (digits: Vec<u8>)
    requires
        p <= ie <= fe <= cs@.len(),
        r == cs@.skip(p as int),
        int_len(r) == ie - p,
        point == has_point(r),
        point ==> frac_len(r) == fe - ie - 1,
        forall|k: int| p <= k < ie ==> is_ascii_digit(#[trigger] cs@[k]),
        point ==> forall|k: int| ie + 1 <= k < fe ==> is_ascii_digit(#[trigger] cs@[k]),
        point ==> ie < fe,
    ensures
        all_digits(digits@),
        dval(digits@) == digits_value(mantissa_digits(r)),
        digits@.len() == int_len(r) + frac_len(r),
{
    let mut digits: Vec<u8> = Vec::new();
    push_digit_bytes(&mut digits, cs, p, ie);
    if point {
        push_digit_bytes(&mut digits, cs, ie + 1, fe);
    }
    proof {
        let md = mantissa_digits(r);
        assert(r.subrange(0, int_len(r)) =~= cs@.subrange(p as int, ie as int));
        if point {
            assert(r.subrange(int_len(r) + 1, int_len(r) + 1 + frac_len(r)) =~= cs@.subrange(
                ie + 1,
                fe as int,
            ));
            assert(digit_bytes(md) =~= digit_bytes(cs@.subrange(p as int, ie as int)) + digit_bytes(
                cs@.subrange(ie + 1, fe as int),
            ));
        } else {
            assert(digit_bytes(md) =~= digit_bytes(cs@.subrange(p as int, ie as int)));
        }
        assert(digits@ =~= digit_bytes(md));
        assert forall|k: int| 0 <= k < md.len() implies is_ascii_digit(#[trigger] md[k]) by {
            if k < ie - p {
                assert(md[k] == cs@[p + k]);
            } else {
                assert(md[k] == cs@[ie + 1 + (k - (ie - p))]);
            }
        }
        lemma_digit_bytes_value(md);
    }
    digits
}

/// Reads `s` as `f64::from_str` does and gives the number times `2^shift`
/// converted to `u64` as `as` converts a double; `None` when `s` is not a
/// float literal.
pub fn parse_scaled_count(s: &str, shift: u32) -> (r: Option<u64>)
    requires
        shift <= 40,
    ensures
        r == scaled_float_count(s@, shift as nat),
{
    let cs = chars_of(s);
    let n = cs.len();
    let negative = n > 0 && cs[0] == '-';
    let p: usize = if n > 0 && (cs[0] == '+' || cs[0] == '-') {
        1
    } else {
        0
    };
    let ghost r = cs@.skip(p as int);
    assert(p as int == sign_len(s@));
    let nan: [char; 3] = ['n', 'a', 'n'];
    let inf: [char; 3] = ['i', 'n', 'f'];
    let infinity: [char; 8] = ['i', 'n', 'f', 'i', 'n', 'i', 't', 'y'];
    assert(nan@ == seq!['n', 'a', 'n']);
    assert(inf@ == seq!['i', 'n', 'f']);
    assert(infinity@ == seq!['i', 'n', 'f', 'i', 'n', 'i', 't', 'y']);
    if spells_word(&cs, p, &nan) {
        return Some(0);
    }
    if spells_word(&cs, p, &inf) || spells_word(&cs, p, &infinity) {
        return Some(
            if negative {
                0
            } else {
                u64::MAX
            },
        );
    }
    let ie = scan_digits(&cs, p);
    proof {
        lemma_digit_run_skip(cs@, p as int, 0);
    }
    let point = ie < n && cs[ie] == '.';
    let fe = if point {
        scan_digits(&cs, ie + 1)
    } else {
        ie
    };
    proof {
        if point {
            lemma_digit_run_skip(cs@, p as int, ie - p + 1);
        }
    }
    let flen: usize = if point {
        fe - ie - 1
    } else {
        0
    };
    if (ie - p) + flen == 0 {
        return None;
    }
    let exponent = scan_exponent(&cs, p, fe, Ghost(r));
    match exponent {
        None => {
            return None;
        },
        Some(e) => {
            if negative {
                return Some(0);
            }
            let digits = mantissa_bytes(&cs, p, ie, point, fe, Ghost(r));
            let ghost exp = literal_exponent(r);
            Some(count_from_digits(&digits, ie - p, e.0, e.1, shift, Ghost(exp)))
        },
    }
}

/// A run of digits to the end of the text covers all of it.
pub proof fn lemma_digit_run_to_end(s: Seq<char>, i: int)
    requires
        0 <= i <= s.len(),
        forall|k: int| i <= k < s.len() ==> is_ascii_digit(#[trigger] s[k]),
    ensures
        digit_run(s, i) == s.len() - i,
    decreases s.len() - i,
{
    if i < s.len() {
        lemma_digit_run_to_end(s, i + 1);
    }
}

/// A whole number below `2^53`, scaled by a power of two, is a double:
/// rounding leaves it as it is.
pub proof fn lemma_scaled_whole_number_exact(m: nat, k: nat)
    requires
        m < pow2(53),
    ensures
        floor_of_nearest_double(m * pow2(k), 1) == m * pow2(k),
{
    let x = m * pow2(k);
    lemma_pow2_pos(k);
    assert(x / 1 == x);
    if m == 0 {
        assert(x == 0);
        lemma_pow2_strictly_increases(0, 54);
        lemma2_to64();
        return;
    }
    lemma_msb_bounds(m);
    let em = msb(m);
    lemma_pow2_adds(em, k);
    lemma_pow2_adds(em + 1, k);
    assert(pow2(em + k) <= x < pow2(em + 1 + k)) by (nonlinear_arith)
        requires
            pow2(em) <= m < pow2(em + 1),
            x == m * pow2(k),
            pow2(k) > 0,
            pow2(em + k) == pow2(em) * pow2(k),
            pow2(em + 1 + k) == pow2(em + 1) * pow2(k);
    lemma_msb_unique(x, em + k);
    let e = em + k;
    if em > 52 {
        lemma_pow2_strictly_increases(53, em);
        lemma2_to64();
    }
    if e <= 52 {
        let j = (52 - e) as nat;
        let p = pow2(j);
        lemma_pow2_pos(j);
        assert((x * p) / 1 == x * p && (x * p) % 1 == 0);
        assert((x * p) / p == x) by (nonlinear_arith)
            requires p > 0;
    } else {
        let j = (e - 52) as nat;
        assert(j <= k);
        let p = pow2(j);
        lemma_pow2_pos(j);
        lemma_pow2_adds(j, (k - j) as nat);
        let q = m * pow2((k - j) as nat);
        assert(x == q * p) by (nonlinear_arith)
            requires x == m * pow2(k), pow2(k) == p * pow2((k - j) as nat), q == m * pow2((k - j) as nat);
        assert(1 * p == p);
        crate::decimal::lemma_div_mod_of(x as int, p as int, q as int, 0);
        assert(round_half_even(x, 1 * p) == q);
    }
}

/// A float literal made of digits only denotes its whole number exactly:
/// below `2^53`, scaled by `2^shift`, it comes out as that number times
/// `2^shift` (capped at `u64::MAX`).
pub proof fn lemma_whole_number_literal(d: Seq<char>, shift: nat)
    requires
        d.len() >= 1,
        forall|k: int| 0 <= k < d.len() ==> is_ascii_digit(#[trigger] d[k]),
        digits_value(d) < pow2(53),
    ensures
        scaled_float_count(d, shift) == Some(saturate_u64(digits_value(d) * pow2(shift))),
{
    assert(is_ascii_digit(d[0]));
    assert(sign_len(d) == 0);
    assert(d.skip(0) =~= d);
    assert(!is_nan_word(d)) by {
        if d.len() == 3 {
            assert(!is_letter_either_case(d[0], 'n'));
        }
    }
    assert(!is_inf_word(d)) by {
        if d.len() == 3 || d.len() == 8 {
            assert(!is_letter_either_case(d[0], 'i'));
        }
    }
    lemma_digit_run_to_end(d, 0);
    assert(int_len(d) == d.len());
    assert(!has_point(d));
    assert(mantissa_end(d) == d.len());
    assert(is_decimal_literal(d));
    assert(literal_exponent(d) == 0);
    assert(mantissa_digits(d) =~= d);
    lemma_pow10_facts();
    let n = digits_value(d);
    assert(n * pow10(0) * pow2(shift) == n * pow2(shift)) by (nonlinear_arith)
        requires pow10(0) == 1;
    lemma_scaled_whole_number_exact(n, shift);
}

} // verus!
