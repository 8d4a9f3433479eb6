//! Human-readable sizes and durations, output names taken from URLs, and
//! the size arguments of the command line.

use vstd::prelude::*;
use vstd::string::*;
use crate::literal::{parse_scaled_count, scaled_float_count, lemma_whole_number_literal};
use crate::decimal::saturate_u64;
use crate::text::{is_ascii_digit, digits_value, trim, trim_text, dec_digits, digit_char, digit_to_char, push_char, push_decimal, push_str,
    is_ascii_text, is_white_space, ascii_upper_char, ascii_lower_char, ascii_upper_text, ascii_lower_text,
    lemma_trim_keeps_ascii, lemma_trim_ignores_padding, lemma_trim_commutes_with_map, lemma_case_keeps_white_space};
use crate::rounding::{floor_of_nearest_double, round_half_even, msb, pow2_u128, msb_u128,
    round_half_even_u128, lemma_msb_bounds};
use vstd::arithmetic::power2::{pow2, lemma2_to64, lemma2_to64_rest, lemma_pow2_pos,
    lemma_pow2_strictly_increases};

verus! {

/// The text of a duration of `seconds`: hours, minutes and seconds, leaving
/// out leading units that are zero (`"1h 0m 5s"`, `"2m 3s"`, `"7s"`).
pub open spec fn duration_text(seconds: nat) -> Seq<char> {
    let h = seconds / 3600;
    let m = (seconds % 3600) / 60;
    let s = seconds % 60;
    if h > 0 {
        dec_digits(h) + "h "@ + dec_digits(m) + "m "@ + dec_digits(s) + "s"@
    } else if m > 0 {
        dec_digits(m) + "m "@ + dec_digits(s) + "s"@
    } else {
        dec_digits(s) + "s"@
    }
}

/// Renders a duration given in seconds.
pub fn format_duration(seconds: u64) -> (text: String)
    ensures
        text@ == duration_text(seconds as nat),
{
    let hours = seconds / 3600;
    let minutes = (seconds % 3600) / 60;
    let secs = seconds % 60;
    let mut text = String::new();
    if hours > 0 {
        push_decimal(&mut text, hours as u128);
        push_str(&mut text, "h ");
        push_decimal(&mut text, minutes as u128);
        push_str(&mut text, "m ");
    } else if minutes > 0 {
        push_decimal(&mut text, minutes as u128);
        push_str(&mut text, "m ");
    }
    push_decimal(&mut text, secs as u128);
    push_str(&mut text, "s");
    text
}

/// The text of a duration reads back as the duration: it names hours,
/// minutes and seconds, minutes and seconds below 60, whose total is the
/// duration; hours are shown exactly when there are any, and minutes when
/// there are any or hours are shown.
pub proof fn lemma_duration_text_reads_back(seconds: nat)
    ensures
        exists|h: nat, m: nat, x: nat|
            #![trigger dec_digits(h), dec_digits(m), dec_digits(x)]
            m < 60 && x < 60 && 3600 * h + 60 * m + x == seconds && (
            (h > 0 && duration_text(seconds) == dec_digits(h) + "h "@ + dec_digits(m) + "m "@
                + dec_digits(x) + "s"@) || (h == 0 && m > 0 && duration_text(seconds) == dec_digits(m)
                + "m "@ + dec_digits(x) + "s"@) || (h == 0 && m == 0 && duration_text(seconds)
                == dec_digits(x) + "s"@)),
{
    let h = seconds / 3600;
    let m = (seconds % 3600) / 60;
    let x = seconds % 60;
    assert(3600 * h + 60 * m + x == seconds && m < 60 && x < 60) by (nonlinear_arith)
        requires
            h == seconds / 3600,
            m == (seconds % 3600) / 60,
            x == seconds % 60,
    {
        assert(seconds == 3600 * (seconds / 3600) + seconds % 3600);
        assert(seconds % 3600 == 60 * ((seconds % 3600) / 60) + (seconds % 3600) % 60);
        assert((seconds % 3600) % 60 == seconds % 60);
    }
    assert(dec_digits(h) == dec_digits(h) && dec_digits(m) == dec_digits(m) && dec_digits(x) == dec_digits(x));
}

/// The unit that a byte count is shown in: the number of times it can be
/// divided by 1024 while staying at least 1024, at most four (terabytes).
pub open spec fn unit_index(v: nat) -> nat {
    if v < pow2(10) {
        0
    } else if v < pow2(20) {
        1
    } else if v < pow2(30) {
        2
    } else if v < pow2(40) {
        3
    } else {
        4
    }
}

/// The name of unit `k`.
pub open spec fn unit_name(k: nat) -> Seq<char> {
    if k == 0 {
        "B"@
    } else if k == 1 {
        "KB"@
    } else if k == 2 {
        "MB"@
    } else if k == 3 {
        "GB"@
    } else {
        "TB"@
    }
}

/// A count of hundredths written with two decimals: `12345` is `"123.45"`.
pub open spec fn hundredths_text(n: nat) -> Seq<char> {
    dec_digits(n / 100) + seq!['.', digit_char((n % 100) / 10), digit_char(n % 10)]
}

/// The text of a byte count `b`: the count, taken as a double (`v`), divided
/// by `1024^k` for its unit `k`, rounded to two decimals (a tie going to the
/// even last digit), then a space and the unit.
pub open spec fn bytes_text(b: nat) -> Seq<char> {
    let v = floor_of_nearest_double(b, 1);
    let k = unit_index(v);
    hundredths_text(round_half_even(v * 100, pow2(10 * k))) + seq![' '] + unit_name(k)
}

/// A count below `2^53` is its own nearest double; a larger one is rounded
/// to a double that is at least `2^53`.
pub proof fn lemma_double_of_count(b: nat)
    ensures
        b < pow2(53) ==> floor_of_nearest_double(b, 1) == b,
        b >= pow2(53) ==> floor_of_nearest_double(b, 1) >= pow2(53),
{
    lemma2_to64();
    lemma2_to64_rest();
    if b == 0 {
        assert(floor_of_nearest_double(b, 1) == 0);
    } else {
        let e = msb(b);
        lemma_msb_bounds(b);
        assert(b / 1 == b);
        if b < pow2(53) {
            if e > 52 {
                lemma_pow2_strictly_increases(53, e);
            }
            let k = (52 - e) as nat;
            let p = pow2(k);
            lemma_pow2_pos(k);
            assert((b * p) / 1 == b * p && (b * p) % 1 == 0);
            assert((b * p) / p == b) by (nonlinear_arith)
                requires p > 0;
        } else {
            if e < 53 {
                if e + 1 < 53 {
                    lemma_pow2_strictly_increases(e + 1, 53);
                }
            }
            let k = (e - 52) as nat;
            let p = pow2(k);
            lemma_pow2_pos(k);
            let q = b / p;
            assert(1 * p == p);
            // b >= 2^e = 2^52 * p, so the quotient is at least 2^52 and the rounded value at least 2^53 ...
            vstd::arithmetic::power2::lemma_pow2_adds(52, k);
            assert(q >= pow2(52)) by (nonlinear_arith)
                requires b >= pow2(52) * p, p > 0, q == b / p;
            let r = round_half_even(b, p);
            assert(r >= q);
            assert(r * p >= pow2(52) * p) by (nonlinear_arith)
                requires r >= pow2(52), p > 0;
            assert(pow2(53) == pow2(52) * 2);
            if k == 0 {
                assert(false);
            }
            assert(p >= 2) by {
                lemma_pow2_strictly_increases(0, k);
            }
            assert(pow2(52) * p >= pow2(52) * 2) by (nonlinear_arith)
                requires p >= 2;
        }
    }
}

/// Renders a byte count with two decimals in the largest unit (up to
/// terabytes) in which it is at least one: `1536` is `"1.50 KB"`.
pub fn format_bytes(bytes: u64) -> (text: String)
    ensures
        text@ == bytes_text(bytes as nat),
{
    let v = double_of_count(bytes);
    proof {
        lemma2_to64();
        lemma2_to64_rest();
    }
    let k: u32;
    let scale: u128;
    let unit: &str;
    if v < 1024 {
        k = 0;
        scale = 1;
        unit = "B";
    } else if v < 1048576 {
        k = 1;
        scale = 1024;
        unit = "KB";
    } else if v < 1073741824 {
        k = 2;
        scale = 1073741824 / 1024;
        unit = "MB";
    } else if v < 1099511627776 {
        k = 3;
        scale = 1073741824;
        unit = "GB";
    } else {
        k = 4;
        scale = 1099511627776;
        unit = "TB";
    }
    assert(scale == pow2(10 * k as nat));
    assert(k as nat == unit_index(v as nat));
    assert(unit@ == unit_name(k as nat));
    let n = round_half_even_u128(v * 100, scale);
    let mut text = String::new();
    push_decimal(&mut text, n / 100);
    push_char(&mut text, '.');
    push_char(&mut text, digit_to_char((n % 100) / 10));
    push_char(&mut text, digit_to_char(n % 10));
    push_char(&mut text, ' ');
    push_str(&mut text, unit);
    proof {
        assert(text@ == hundredths_text(n as nat) + seq![' '] + unit_name(k as nat));
    }
    text
}

/// The double nearest to a byte count, as an integer (`bytes as f64`).
pub fn double_of_count(b: u64) -> (v: u128)
    ensures
        v == floor_of_nearest_double(b as nat, 1),
        v <= u64::MAX as nat + 1,
{
    proof {
        lemma_double_of_count(b as nat);
        lemma2_to64();
        lemma2_to64_rest();
    }
    if b == 0 {
        return 0;
    }
    let e = msb_u128(b as u128);
    if e <= 52 {
        proof {
            if b >= pow2(53) {
                lemma_msb_bounds(b as nat);
                lemma_pow2_strictly_increases(e as nat + 1, 53);
            }
        }
        b as u128
    } else {
        let p = pow2_u128(e - 52);
        proof {
            lemma_pow2_pos((e - 52) as nat);
            assert(1 * p == p);
        }
        let bb: u128 = b as u128;
        let q = round_half_even_u128(bb, p);
        assert((bb / p) * p <= bb) by (nonlinear_arith)
            requires p > 0;
        assert(e <= 63) by {
            lemma_msb_bounds(b as nat);
            crate::rounding::lemma_pow2_128();
            if e > 64 {
                lemma_pow2_strictly_increases(64, e as nat);
            }
        }
        proof {
            // the rounded value never exceeds 2^(e+1) <= 2^64
            lemma_msb_bounds(b as nat);
            vstd::arithmetic::power2::lemma_pow2_adds(53, (e - 52) as nat);
            assert(bb / p < pow2(53)) by (nonlinear_arith)
                requires bb < pow2(53) * p, p > 0;
            assert(q * p <= pow2(53) * p) by (nonlinear_arith)
                requires q <= pow2(53), p > 0;
            if e + 1 < 64 {
                lemma_pow2_strictly_increases(e as nat + 1, 64);
            }
        }
        q * p
    }
}

/// The path of `url` as `url::Url::parse` reads it (percent-encoded, with
/// a leading `/` when the URL has a hierarchical path); nothing when the
/// URL does not parse.
pub uninterp spec fn parsed_url_path(url: Seq<char>) -> Option<Seq<char>>;

/// Calls `url::Url::parse` and takes `Url::path` of the result. The
/// contract claims that the answer is a function of `url` (named
/// `parsed_url_path`) and that a path holds no `?` or `#` (the parser ends
/// the path at either and percent-encodes them inside it); nothing more of
/// what the parser does.
#[verifier::external_body]
fn url_path(url: &str) -> (path: Option<String>)
    ensures
        path matches Some(p) ==> parsed_url_path(url@) == Some(p@),
        path is None ==> parsed_url_path(url@) is None,
        path matches Some(p) ==> forall|i: int| 0 <= i < p@.len() ==> #[trigger] p@[i] != '?' && p@[i] != '#',
{
    match url::Url::parse(url) {
        Ok(u) => Some(u.path().to_string()),
        Err(_) => None,
    }
}

/// What follows the last `/` of `s` (all of `s` if it has none).
pub open spec fn after_last_slash(s: Seq<char>) -> Seq<char>
    decreases s.len(),
{
    if s.len() == 0 {
        s
    } else if s.last() == '/' {
        Seq::empty()
    } else {
        after_last_slash(s.drop_last()).push(s.last())
    }
}

/// A name that can stand as a file name taken from a URL: not empty, and
/// without `/`, `?` or `#`.
pub open spec fn is_plain_file_name(s: Seq<char>) -> bool {
    &&& s.len() > 0
    &&& forall|i: int| 0 <= i < s.len() ==> #[trigger] s[i] != '/' && s[i] != '?' && s[i] != '#'
}

/// What follows the last `/` of `s` is the end of `s` and holds no `/`.
pub proof fn lemma_after_last_slash_suffix(s: Seq<char>)
    ensures
        after_last_slash(s).len() <= s.len(),
        after_last_slash(s) == s.subrange(s.len() - after_last_slash(s).len(), s.len() as int),
        forall|i: int| 0 <= i < after_last_slash(s).len() ==> #[trigger] after_last_slash(s)[i] != '/',
    decreases s.len(),
{
    if s.len() > 0 {
        lemma_after_last_slash_suffix(s.drop_last());
        if s.last() != '/' {
            let a = after_last_slash(s.drop_last());
            assert(a.push(s.last()) =~= s.subrange(s.len() - a.len() - 1, s.len() as int));
        } else {
            assert(s.subrange(s.len() as int, s.len() as int) =~= Seq::<char>::empty());
        }
    } else {
        assert(s.subrange(0, 0) =~= s);
    }
}

/// What follows the last `/` of a text that ends with `/` and then a run
/// without `/` is that run.
pub proof fn lemma_after_last_slash_of_segment(prefix: Seq<char>, name: Seq<char>)
    requires
        prefix.len() > 0,
        prefix.last() == '/',
        forall|i: int| 0 <= i < name.len() ==> #[trigger] name[i] != '/',
    ensures
        after_last_slash(prefix + name) == name,
    decreases name.len(),
{
    if name.len() == 0 {
        assert(prefix + name =~= prefix);
    } else {
        let t = name.drop_last();
        lemma_after_last_slash_of_segment(prefix, t);
        assert((prefix + name).drop_last() =~= prefix + t);
        assert((prefix + name).last() == name.last());
        assert(t.push(name.last()) =~= name);
    }
}

/// The file name that a URL path gives: its last `/`-separated segment when
/// the path starts with `/` and that segment is not empty;
/// `downloaded_file` otherwise.
pub open spec fn filename_for_path(path: Option<Seq<char>>) -> Seq<char> {
    match path {
        Some(p) => if p.len() > 0 && p[0] == '/' && after_last_slash(p).len() > 0 {
            after_last_slash(p)
        } else {
            "downloaded_file"@
        },
        None => "downloaded_file"@,
    }
}

/// A path that starts with `/` and ends with a non-empty last segment names
/// the file after that whole segment, whatever its length; a path that ends
/// with `/`, one that does not start with `/`, and a URL that does not parse
/// give `downloaded_file`.
pub proof fn lemma_file_name_is_last_segment(prefix: Seq<char>, name: Seq<char>)
    requires
        prefix.len() > 0,
        prefix[0] == '/',
        prefix.last() == '/',
        forall|i: int| 0 <= i < name.len() ==> #[trigger] name[i] != '/',
    ensures
        name.len() > 0 ==> filename_for_path(Some(prefix + name)) == name,
        name.len() == 0 ==> filename_for_path(Some(prefix + name)) == "downloaded_file"@,
        filename_for_path(None) == "downloaded_file"@,
        forall|p: Seq<char>| (p.len() == 0 || p[0] != '/') ==> #[trigger] filename_for_path(Some(p)) == "downloaded_file"@,
{
    lemma_after_last_slash_of_segment(prefix, name);
    assert((prefix + name)[0] == prefix[0]);
}

/// The file name for a URL whose path (if it parsed) is `path`.
pub fn filename_from_url_path(path: Option<&str>) -> (name: String)
    ensures
        name@ == filename_for_path(
            match path {
                Some(p) => Some(p@),
                None => None,
            },
        ),
{
    match path {
        Some(p) => {
            let len = p.unicode_len();
            if len > 0 && p.get_char(0) == '/' {
                let mut k: usize = len;
                proof {
                    assert(p@.take(len as int) =~= p@);
                    assert(p@.subrange(len as int, len as int) =~= Seq::<char>::empty());
                    assert(after_last_slash(p@) + Seq::<char>::empty() =~= after_last_slash(p@));
                }
                while k > 0 && p.get_char(k - 1) != '/'
                    invariant
                        k <= len,
                        len == p@.len(),
                        after_last_slash(p@) == after_last_slash(p@.take(k as int)) + p@.subrange(
                            k as int,
                            len as int,
                        ),
                    decreases k,
                {
                    proof {
                        let t = p@.take(k as int);
                        assert(t.drop_last() =~= p@.take(k - 1));
                        assert(p@.subrange(k - 1, len as int) =~= seq![t.last()] + p@.subrange(
                            k as int,
                            len as int,
                        ));
                        assert(after_last_slash(t) == after_last_slash(t.drop_last()).push(t.last()));
                        assert(after_last_slash(t.drop_last()).push(t.last()) + p@.subrange(
                            k as int,
                            len as int,
                        ) =~= after_last_slash(t.drop_last()) + p@.subrange(k - 1, len as int));
                    }
                    k = k - 1;
                }
                proof {
                    assert(after_last_slash(p@.take(k as int)) =~= Seq::<char>::empty()) by {
                        if k > 0 {
                            assert(p@.take(k as int).last() == '/');
                        }
                    }
                    assert(after_last_slash(p@) =~= p@.subrange(k as int, len as int));
                }
                if k < len {
                    return String::from_str(p.substring_char(k, len));
                }
            }
            String::from_str("downloaded_file")
        },
        None => String::from_str("downloaded_file"),
    }
}

/// The output file name for `url`: the last segment of its path, or
/// `downloaded_file` when the URL does not parse, has no hierarchical path,
/// or its path ends with `/`.
pub fn extract_filename_from_url(url: &str) -> (name: String)
    ensures
        name@ == filename_for_path(parsed_url_path(url@)),
        is_plain_file_name(name@),
{
    let path = url_path(url);
    proof {
        reveal_strlit("downloaded_file");
        if let Some(p) = parsed_url_path(url@) {
            lemma_after_last_slash_suffix(p);
            let a = after_last_slash(p);
            assert forall|i: int| 0 <= i < a.len() implies #[trigger] a[i] != '/' && a[i] != '?' && a[i]
                != '#' by {
                assert(a[i] == p[p.len() - a.len() + i]);
            }
        }
    }
    match path {
        Some(p) => filename_from_url_path(Some(p.as_str())),
        None => filename_from_url_path(None),
    }
}

/// A size argument that is not a number.
#[derive(Debug, PartialEq, Eq, Structural)]
pub enum SizeError {
    /// The part before the unit is not a float literal.
    InvalidNumber,
    /// There is no part before the unit.
    EmptyNumber,
}

impl SizeError {
    /// The message that goes with the error, as the float parser words it.
    pub fn message(&self) -> (m: &'static str)
        ensures
            m@ == match self {
                SizeError::InvalidNumber => "invalid float literal"@,
                SizeError::EmptyNumber => "cannot parse float from empty string"@,
            },
    {
        match self {
            SizeError::InvalidNumber => "invalid float literal",
            SizeError::EmptyNumber => "cannot parse float from empty string",
        }
    }
}

/// What `str::to_uppercase` gives for `s` (the full Unicode mapping, in
/// which one character can become several).
pub uninterp spec fn uppercase_text(s: Seq<char>) -> Seq<char>;

/// Calls `str::to_uppercase`. The contract claims that the result is a
/// function of `s` (named `uppercase_text`) and, for ASCII text, that only
/// the letters `a`..`z` change, to `A`..`Z` (their Unicode upper-case
/// mapping); of other text it claims nothing more.
#[verifier::external_body]
fn to_uppercase(s: &str) -> (u: String)
    ensures
        u@ == uppercase_text(s@),
        is_ascii_text(s@) ==> u@ == ascii_upper_text(s@),
{
    s.to_uppercase()
}

/// The power of two that a unit letter at the end of a size stands for:
/// `K` for `2^10`, `M` for `2^20`, `G` for `2^30`, `T` for `2^40`; none
/// (0) otherwise.
pub open spec fn size_suffix_shift(u: Seq<char>) -> nat {
    if u.len() == 0 {
        0
    } else if u.last() == 'K' {
        10
    } else if u.last() == 'M' {
        20
    } else if u.last() == 'G' {
        30
    } else if u.last() == 'T' {
        40
    } else {
        0
    }
}

/// The number part of a size: all of it but a unit letter.
pub open spec fn size_number_text(u: Seq<char>) -> Seq<char> {
    if size_suffix_shift(u) > 0 {
        u.drop_last()
    } else {
        u
    }
}

/// The bytes that an upper-case size text stands for: its number read as
/// a double, times its unit, converted to `u64` as `as` does; `None` when
/// the number is not a float literal.
pub open spec fn size_value(u: Seq<char>) -> Option<u64> {
    scaled_float_count(size_number_text(u), size_suffix_shift(u))
}

/// What reading the trimmed, upper-case size text `u` gives: its value,
/// or the error for an empty number or for one that is not a float literal.
pub open spec fn size_result(u: Seq<char>) -> Result<u64, SizeError> {
    if size_number_text(u).len() == 0 {
        Err(SizeError::EmptyNumber)
    } else {
        match size_value(u) {
            Some(n) => Ok(n),
            None => Err(SizeError::InvalidNumber),
        }
    }
}

/// Reads a size that is already trimmed and in upper case.
pub fn parse_size_normalized(u: &str) -> (r: Result<u64, SizeError>)
    ensures
        r == size_result(u@),
        r matches Ok(n) ==> size_value(u@) == Some(n),
        r is Err ==> size_value(u@) is None,
{
    let n = u.unicode_len();
    let mut shift: u32 = 0;
    if n > 0 {
        let last = u.get_char(n - 1);
        if last == 'K' {
            shift = 10;
        } else if last == 'M' {
            shift = 20;
        } else if last == 'G' {
            shift = 30;
        } else if last == 'T' {
            shift = 40;
        }
    }
    let number = if shift > 0 {
        u.substring_char(0, n - 1)
    } else {
        u
    };
    proof {
        if shift > 0 {
            assert(number@ =~= u@.drop_last());
        }
    }
    if number.unicode_len() == 0 {
        proof {
            assert(number@.skip(0) =~= number@);
            assert(!crate::literal::is_decimal_literal(number@));
        }
        return Err(SizeError::EmptyNumber);
    }
    match parse_scaled_count(number, shift) {
        Some(v) => Ok(v),
        None => Err(SizeError::InvalidNumber),
    }
}

/// Reads a size argument such as `1M`, `512k` or `1.5G`: trimmed and put
/// in upper case, its number times its unit (K, M, G, T for powers of 1024).
pub fn parse_size(size_str: &str) -> (r: Result<u64, SizeError>)
    ensures
        r == size_result(uppercase_text(trim_text(size_str@))),
        is_ascii_text(size_str@) ==> r == ascii_size_result(size_str@),
        r matches Ok(n) ==> size_value(uppercase_text(trim_text(size_str@))) == Some(n),
        r is Err ==> size_value(uppercase_text(trim_text(size_str@))) is None,
{
    let trimmed = trim(size_str);
    proof {
        if is_ascii_text(size_str@) {
            lemma_trim_keeps_ascii(size_str@);
        }
    }
    let upper = to_uppercase(trimmed.as_str());
    parse_size_normalized(upper.as_str())
}

/// A size written as a whole number below `2^53`, with or without a unit
/// letter, stands for exactly that number times the unit (capped at
/// `u64::MAX`): `2K` is 2048 and `1T` is `2^40`.
pub proof fn lemma_whole_number_sizes(d: Seq<char>, unit: Seq<char>)
    requires
        d.len() >= 1,
        forall|k: int| 0 <= k < d.len() ==> is_ascii_digit(#[trigger] d[k]),
        digits_value(d) < pow2(53),
        unit == Seq::<char>::empty() || unit == seq!['K'] || unit == seq!['M'] || unit == seq!['G']
            || unit == seq!['T'],
    ensures
        size_value(d + unit) == Some(
            saturate_u64(digits_value(d) * pow2(size_suffix_shift(d + unit))),
        ),
        size_suffix_shift(d + unit) == if unit == seq!['K'] {
            10nat
        } else if unit == seq!['M'] {
            20nat
        } else if unit == seq!['G'] {
            30nat
        } else if unit == seq!['T'] {
            40nat
        } else {
            0nat
        },
{
    let u = d + unit;
    if unit.len() == 0 {
        assert(u =~= d);
        assert(is_ascii_digit(d.last()));
    } else {
        assert(u.drop_last() =~= d);
        assert(u.last() == unit[0]);
    }
    lemma_whole_number_literal(d, size_suffix_shift(u));
}

/// What `parse_size` gives for ASCII text: the trimmed text with its ASCII
/// letters in upper case, read as a size.
pub open spec fn ascii_size_result(s: Seq<char>) -> Result<u64, SizeError> {
    size_result(ascii_upper_text(trim_text(s)))
}

/// For ASCII text, white space around a size and the case of its letters
/// do not matter: `s`, `s` in lower case between white space, and `s` in
/// upper case all read as the same size, or all fail alike.
pub proof fn lemma_size_ignores_case_and_padding(s: Seq<char>, w1: Seq<char>, w2: Seq<char>)
    requires
        is_ascii_text(s),
        forall|i: int| 0 <= i < w1.len() ==> is_white_space(#[trigger] w1[i]) && (w1[i] as u32) < 128,
        forall|i: int| 0 <= i < w2.len() ==> is_white_space(#[trigger] w2[i]) && (w2[i] as u32) < 128,
    ensures
        is_ascii_text(w1 + ascii_lower_text(s) + w2),
        is_ascii_text(ascii_upper_text(s)),
        ascii_size_result(w1 + ascii_lower_text(s) + w2) == ascii_size_result(s),
        ascii_size_result(ascii_upper_text(s)) == ascii_size_result(s),
{
    let lower = ascii_lower_text(s);
    let upper = ascii_upper_text(s);
    let padded = w1 + lower + w2;
    assert forall|i: int| 0 <= i < padded.len() implies (#[trigger] padded[i] as u32) < 128 by {
        if i < w1.len() {
            assert(padded[i] == w1[i]);
        } else if i < w1.len() + lower.len() {
            assert(padded[i] == lower[i - w1.len()]);
            assert((s[i - w1.len()] as u32) < 128);
        } else {
            assert(padded[i] == w2[i - w1.len() - lower.len()]);
        }
    }
    assert forall|i: int| 0 <= i < upper.len() implies (#[trigger] upper[i] as u32) < 128 by {
        assert((s[i] as u32) < 128);
    }
    lemma_case_keeps_white_space();
    lemma_trim_ignores_padding(w1, lower, w2);
    lemma_trim_commutes_with_map(s, |c: char| ascii_lower_char(c));
    lemma_trim_commutes_with_map(s, |c: char| ascii_upper_char(c));
    let t = trim_text(s);
    assert(ascii_upper_text(t.map_values(|c: char| ascii_lower_char(c))) =~= ascii_upper_text(t));
    assert(ascii_upper_text(t.map_values(|c: char| ascii_upper_char(c))) =~= ascii_upper_text(t));
}

/// Renders a transfer rate given in whole bytes per second: the byte count
/// followed by `/s`.
pub fn format_rate(bytes_per_sec: u64) -> (text: String)
    ensures
        text@ == bytes_text(bytes_per_sec as nat) + "/s"@,
{
    let mut text = format_bytes(bytes_per_sec);
    push_str(&mut text, "/s");
    text
}

} // verus!
