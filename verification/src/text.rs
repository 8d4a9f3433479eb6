//! Character-level helpers: decimal rendering of integers and the one
//! primitive that grows a `String` by a character.

use vstd::prelude::*;
use vstd::string::*;

verus! {

/// The ASCII digit character of `d` (for `d < 10`).
pub open spec fn digit_char(d: nat) -> char {
    (48 + d) as char
}

/// The shortest decimal rendering of `n`, most significant digit first.
pub open spec fn dec_digits(n: nat) -> Seq<char>
    decreases n,
{
    if n < 10 {
        seq![digit_char(n)]
    } else {
        dec_digits(n / 10).push(digit_char(n % 10))
    }
}

/// Appends `c` to `s` (`String::push`).
#[verifier::external_body]
pub(crate) fn push_char(s: &mut String, c: char)
    ensures
        final(s)@ == old(s)@.push(c),
{
    s.push(c);
}

/// The character of the digit `d`.
pub fn digit_to_char(d: u128) -> (c: char)
    requires
        d < 10,
    ensures
        c == digit_char(d as nat),
{
    let b: u8 = 48u8 + (d as u8);
    b as char
}

/// Appends the decimal rendering of `n` to `s`.
pub fn push_decimal(s: &mut String, n: u128)
    ensures
        final(s)@ == old(s)@ + dec_digits(n as nat),
    decreases n,
{
    if n >= 10 {
        push_decimal(s, n / 10);
    }
    push_char(s, digit_to_char(n % 10));
    proof {
        if n >= 10 {
            assert(dec_digits(n as nat) == dec_digits((n / 10) as nat).push(digit_char((n % 10) as nat)));
        }
    }
}

/// Appends the characters of `t` to `s`.
pub fn push_str(s: &mut String, t: &str)
    ensures
        final(s)@ == old(s)@ + t@,
{
    s.append(t);
}

/// `c` is one of `0` to `9`.
pub open spec fn is_ascii_digit(c: char) -> bool {
    '0' <= c <= '9'
}

/// The number that a string of ASCII digits denotes.
pub open spec fn digits_value(s: Seq<char>) -> nat
    decreases s.len(),
{
    if s.len() == 0 {
        0
    } else {
        digits_value(s.drop_last()) * 10 + (s.last() as nat - 48) as nat
    }
}

/// A string of ASCII digits is worth at least any of its prefixes.
pub proof fn lemma_digits_value_prefix(s: Seq<char>, k: int)
    requires
        0 <= k <= s.len(),
    ensures
        digits_value(s.take(k)) <= digits_value(s),
    decreases s.len() - k,
{
    if k < s.len() {
        lemma_digits_value_prefix(s, k + 1);
        assert(s.take(k + 1).drop_last() =~= s.take(k));
    } else {
        assert(s.take(k) =~= s);
    }
}

/// What `u64::from_str` gives for `s`: an optional `+` and then one or more
/// ASCII digits denoting a number that fits in 64 bits; nothing otherwise.
pub open spec fn parse_u64_text(s: Seq<char>) -> Option<u64> {
    let body = parse_u64_body(s);
    if body.len() > 0 && (forall|i: int| 0 <= i < body.len() ==> is_ascii_digit(#[trigger] body[i]))
        && digits_value(body) <= u64::MAX {
        Some(digits_value(body) as u64)
    } else {
        None
    }
}

/// Reads a decimal `u64` as `u64::from_str` does.
pub fn parse_u64(s: &str) -> (n: Option<u64>)
    ensures
        n == parse_u64_text(s@),
{
    let len = s.unicode_len();
    let mut i: usize = 0;
    if len > 0 && s.get_char(0) == '+' {
        i = 1;
    }
    let first = i;
    if first >= len {
        return None;
    }
    let ghost body = s@.subrange(first as int, len as int);
    proof {
        assert(body =~= parse_u64_body(s@));
    }
    let mut acc: u64 = 0;
    while i < len
        invariant
            first <= i <= len,
            len == s@.len(),
            body == s@.subrange(first as int, len as int),
            body == parse_u64_body(s@),
            first < len,
            forall|j: int| first <= j < i ==> is_ascii_digit(#[trigger] s@[j]),
            acc == digits_value(s@.subrange(first as int, i as int)),
        decreases len - i,
    {
        let c = s.get_char(i);
        if !('0' <= c && c <= '9') {
            proof {
                assert(body[i - first] == c);
                assert(!is_ascii_digit(body[i - first]));
            }
            return None;
        }
        let d = (c as u32 - 48) as u64;
        proof {
            assert(s@.subrange(first as int, i + 1).drop_last() =~= s@.subrange(first as int, i as int));
        }
        if acc > (u64::MAX - d) / 10 {
            proof {
                assert(digits_value(s@.subrange(first as int, i + 1)) > u64::MAX) by (nonlinear_arith)
                    requires
                        digits_value(s@.subrange(first as int, i + 1)) == acc * 10 + d,
                        acc > (u64::MAX - d) / 10,
                        d <= 9;
                assert(body.take(i + 1 - first) =~= s@.subrange(first as int, i + 1));
                lemma_digits_value_prefix(body, i + 1 - first);
            }
            return None;
        }
        acc = acc * 10 + d;
        i = i + 1;
    }
    Some(acc)
}

/// The digits part of a `u64` literal: what follows a leading `+`.
pub open spec fn parse_u64_body(s: Seq<char>) -> Seq<char> {
    if s.len() > 0 && s[0] == '+' {
        s.drop_first()
    } else {
        s
    }
}

/// `c` has the Unicode `White_Space` property, which is what `str::trim`
/// strips.
pub open spec fn is_white_space(c: char) -> bool {
    let u = c as u32;
    ||| 0x09 <= u <= 0x0d
    ||| u == 0x20
    ||| u == 0x85
    ||| u == 0xa0
    ||| u == 0x1680
    ||| 0x2000 <= u <= 0x200a
    ||| u == 0x2028
    ||| u == 0x2029
    ||| u == 0x202f
    ||| u == 0x205f
    ||| u == 0x3000
}

/// `s` without its leading white space.
pub open spec fn trim_start_text(s: Seq<char>) -> Seq<char>
    decreases s.len(),
{
    if s.len() > 0 && is_white_space(s[0]) {
        trim_start_text(s.drop_first())
    } else {
        s
    }
}

/// `s` without its trailing white space.
pub open spec fn trim_end_text(s: Seq<char>) -> Seq<char>
    decreases s.len(),
{
    if s.len() > 0 && is_white_space(s.last()) {
        trim_end_text(s.drop_last())
    } else {
        s
    }
}

/// `s` without leading and trailing white space, as `str::trim` gives it.
pub open spec fn trim_text(s: Seq<char>) -> Seq<char> {
    trim_end_text(trim_start_text(s))
}

/// Whether `c` has the Unicode `White_Space` property.
pub fn char_is_white_space(c: char) -> (b: bool)
    ensures
        b == is_white_space(c),
{
    let u = c as u32;
    (0x09 <= u && u <= 0x0d) || u == 0x20 || u == 0x85 || u == 0xa0 || u == 0x1680 || (0x2000 <= u
        && u <= 0x200a) || u == 0x2028 || u == 0x2029 || u == 0x202f || u == 0x205f || u == 0x3000
}

proof fn lemma_trim_start_skip(s: Seq<char>, k: int)
    requires
        0 <= k <= s.len(),
        forall|j: int| 0 <= j < k ==> is_white_space(#[trigger] s[j]),
    ensures
        trim_start_text(s) == trim_start_text(s.subrange(k, s.len() as int)),
    decreases k,
{
    if k > 0 {
        let t = s.drop_first();
        assert forall|j: int| 0 <= j < k - 1 implies is_white_space(#[trigger] t[j]) by {
            assert(t[j] == s[j + 1]);
        }
        lemma_trim_start_skip(t, k - 1);
        assert(t.subrange(k - 1, t.len() as int) =~= s.subrange(k, s.len() as int));
    } else {
        assert(s.subrange(0, s.len() as int) =~= s);
    }
}

proof fn lemma_trim_end_drop(s: Seq<char>, k: int)
    requires
        0 <= k <= s.len(),
        forall|j: int| k <= j < s.len() ==> is_white_space(#[trigger] s[j]),
    ensures
        trim_end_text(s) == trim_end_text(s.subrange(0, k)),
    decreases s.len() - k,
{
    if k < s.len() {
        let t = s.drop_last();
        lemma_trim_end_drop(t, k);
        assert(t.subrange(0, k) =~= s.subrange(0, k));
    } else {
        assert(s.subrange(0, k) =~= s);
    }
}

/// `s` without leading and trailing white space (`str::trim`).
pub fn trim(s: &str) -> (t: String)
    ensures
        t@ == trim_text(s@),
{
    let len = s.unicode_len();
    let mut a: usize = 0;
    while a < len && char_is_white_space(s.get_char(a))
        invariant
            a <= len,
            len == s@.len(),
            forall|j: int| 0 <= j < a ==> is_white_space(#[trigger] s@[j]),
        decreases len - a,
    {
        a = a + 1;
    }
    proof {
        lemma_trim_start_skip(s@, a as int);
    }
    let ghost rest = s@.subrange(a as int, len as int);
    let mut b: usize = len;
    while b > a && char_is_white_space(s.get_char(b - 1))
        invariant
            a <= b <= len,
            len == s@.len(),
            rest == s@.subrange(a as int, len as int),
            forall|j: int| b <= j < len ==> is_white_space(#[trigger] s@[j]),
        decreases b - a,
    {
        b = b - 1;
    }
    proof {
        assert forall|j: int| b - a <= j < rest.len() implies is_white_space(#[trigger] rest[j]) by {
            assert(rest[j] == s@[j + a]);
        }
        lemma_trim_end_drop(rest, b - a);
        assert(rest.subrange(0, b - a) =~= s@.subrange(a as int, b as int));
        if a == len {
            assert(rest.len() == 0);
        } else {
            // the first remaining character is not white space
            assert(!is_white_space(rest[0]));
        }
        if b > a {
            assert(!is_white_space(s@.subrange(a as int, b as int).last()));
        }
    }
    String::from_str(s.substring_char(a, b))
}

/// Every character of `s` is ASCII.
pub open spec fn is_ascii_text(s: Seq<char>) -> bool {
    forall|i: int| 0 <= i < s.len() ==> (#[trigger] s[i] as u32) < 128
}

/// `c` with `a`..`z` turned into `A`..`Z`.
pub open spec fn ascii_upper_char(c: char) -> char {
    if 'a' <= c && c <= 'z' {
        ((c as u32) - 32) as char
    } else {
        c
    }
}

/// `c` with `A`..`Z` turned into `a`..`z`.
pub open spec fn ascii_lower_char(c: char) -> char {
    if 'A' <= c && c <= 'Z' {
        ((c as u32) + 32) as char
    } else {
        c
    }
}

/// `s` with its ASCII letters in upper case (`str::to_ascii_uppercase`).
pub open spec fn ascii_upper_text(s: Seq<char>) -> Seq<char> {
    s.map_values(|c: char| ascii_upper_char(c))
}

/// `s` with its ASCII letters in lower case (`str::to_ascii_lowercase`).
pub open spec fn ascii_lower_text(s: Seq<char>) -> Seq<char> {
    s.map_values(|c: char| ascii_lower_char(c))
}

/// Trimming keeps only characters of `s`, so it keeps ASCII text ASCII.
pub proof fn lemma_trim_keeps_ascii(s: Seq<char>)
    requires
        is_ascii_text(s),
    ensures
        is_ascii_text(trim_start_text(s)),
        is_ascii_text(trim_end_text(s)),
        is_ascii_text(trim_text(s)),
    decreases s.len(),
{
    if s.len() > 0 {
        let a = s.drop_first();
        let b = s.drop_last();
        assert(is_ascii_text(a)) by {
            assert forall|i: int| 0 <= i < a.len() implies (#[trigger] a[i] as u32) < 128 by {
                assert(a[i] == s[i + 1]);
            }
        }
        assert(is_ascii_text(b)) by {
            assert forall|i: int| 0 <= i < b.len() implies (#[trigger] b[i] as u32) < 128 by {
                assert(b[i] == s[i]);
            }
        }
        lemma_trim_keeps_ascii(a);
        lemma_trim_keeps_ascii(b);
        lemma_trim_end_keeps_ascii(trim_start_text(s));
    }
}

proof fn lemma_trim_end_keeps_ascii(s: Seq<char>)
    requires
        is_ascii_text(s),
    ensures
        is_ascii_text(trim_end_text(s)),
    decreases s.len(),
{
    if s.len() > 0 {
        let b = s.drop_last();
        assert(is_ascii_text(b)) by {
            assert forall|i: int| 0 <= i < b.len() implies (#[trigger] b[i] as u32) < 128 by {
                assert(b[i] == s[i]);
            }
        }
        lemma_trim_end_keeps_ascii(b);
    }
}

/// White space before and after `x` does not change what trimming gives.
pub proof fn lemma_trim_ignores_padding(w1: Seq<char>, x: Seq<char>, w2: Seq<char>)
    requires
        forall|i: int| 0 <= i < w1.len() ==> is_white_space(#[trigger] w1[i]),
        forall|i: int| 0 <= i < w2.len() ==> is_white_space(#[trigger] w2[i]),
    ensures
        trim_text(w1 + x + w2) == trim_text(x),
{
    let s = w1 + x + w2;
    lemma_trim_start_skip(s, w1.len() as int);
    assert(s.subrange(w1.len() as int, s.len() as int) =~= x + w2);
    lemma_trim_suffix(x, w2);
}

proof fn lemma_trim_suffix(x: Seq<char>, w: Seq<char>)
    requires
        forall|i: int| 0 <= i < w.len() ==> is_white_space(#[trigger] w[i]),
    ensures
        trim_end_text(trim_start_text(x + w)) == trim_end_text(trim_start_text(x)),
    decreases x.len(),
{
    let s = x + w;
    if x.len() == 0 {
        assert(s =~= w);
        lemma_trim_start_skip(w, w.len() as int);
        assert(w.subrange(w.len() as int, w.len() as int) =~= Seq::<char>::empty());
    } else if is_white_space(x[0]) {
        assert(s[0] == x[0]);
        assert(s.drop_first() =~= x.drop_first() + w);
        lemma_trim_suffix(x.drop_first(), w);
    } else {
        assert(s[0] == x[0]);
        assert forall|j: int| x.len() <= j < s.len() implies is_white_space(#[trigger] s[j]) by {
            assert(s[j] == w[j - x.len()]);
        }
        lemma_trim_end_drop(s, x.len() as int);
        assert(s.subrange(0, x.len() as int) =~= x);
    }
}

/// Trimming and a character mapping that keeps white space white space,
/// and other characters other, can be done in either order.
pub proof fn lemma_trim_commutes_with_map(s: Seq<char>, f: spec_fn(char) -> char)
    requires
        forall|c: char| #[trigger] is_white_space(f(c)) == is_white_space(c),
    ensures
        trim_text(s.map_values(f)) == trim_text(s).map_values(f),
{
    lemma_trim_start_map(s, f);
    lemma_trim_end_map(trim_start_text(s), f);
}

proof fn lemma_trim_start_map(s: Seq<char>, f: spec_fn(char) -> char)
    requires
        forall|c: char| #[trigger] is_white_space(f(c)) == is_white_space(c),
    ensures
        trim_start_text(s.map_values(f)) == trim_start_text(s).map_values(f),
    decreases s.len(),
{
    let m = s.map_values(f);
    if s.len() > 0 {
        assert(m[0] == f(s[0]));
        if is_white_space(s[0]) {
            assert(m.drop_first() =~= s.drop_first().map_values(f));
            lemma_trim_start_map(s.drop_first(), f);
        }
    } else {
        assert(m =~= s.map_values(f));
    }
}

proof fn lemma_trim_end_map(s: Seq<char>, f: spec_fn(char) -> char)
    requires
        forall|c: char| #[trigger] is_white_space(f(c)) == is_white_space(c),
    ensures
        trim_end_text(s.map_values(f)) == trim_end_text(s).map_values(f),
    decreases s.len(),
{
    let m = s.map_values(f);
    if s.len() > 0 {
        assert(m.last() == f(s.last()));
        if is_white_space(s.last()) {
            assert(m.drop_last() =~= s.drop_last().map_values(f));
            lemma_trim_end_map(s.drop_last(), f);
        }
    }
}

/// The ASCII case mappings turn no character into white space or out of it.
pub proof fn lemma_case_keeps_white_space()
    ensures
        forall|c: char| #[trigger] is_white_space(ascii_upper_char(c)) == is_white_space(c),
        forall|c: char| #[trigger] is_white_space(ascii_lower_char(c)) == is_white_space(c),
{
}

} // verus!
