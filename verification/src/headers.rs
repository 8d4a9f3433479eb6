//! Request headers: the set a download sends, the `Name: Value` lines of
//! the command line, and the check that a header can go on the wire.

use vstd::prelude::*;
use vstd::string::*;
use crate::text::{trim, trim_text};

verus! {

/// The map that a list of `(name, value)` pairs denotes, later pairs taking
/// precedence.
pub open spec fn pairs_map(s: Seq<(Seq<char>, Seq<char>)>) -> Map<Seq<char>, Seq<char>>
    decreases s.len(),
{
    if s.len() == 0 {
        Map::empty()
    } else {
        pairs_map(s.drop_last()).insert(s.last().0, s.last().1)
    }
}

/// No name occurs twice.
pub open spec fn names_distinct(s: Seq<(Seq<char>, Seq<char>)>) -> bool {
    forall|i: int, j: int| 0 <= i < j < s.len() ==> s[i].0 != s[j].0
}

/// The names of a list of pairs are the keys of the map it denotes.
pub proof fn lemma_pairs_map_dom(s: Seq<(Seq<char>, Seq<char>)>, k: Seq<char>)
    ensures
        pairs_map(s).contains_key(k) <==> exists|i: int| 0 <= i < s.len() && s[i].0 == k,
    decreases s.len(),
{
    if s.len() > 0 {
        lemma_pairs_map_dom(s.drop_last(), k);
        if pairs_map(s).contains_key(k) && s.last().0 != k {
            let i = choose|i: int| 0 <= i < s.len() - 1 && s.drop_last()[i].0 == k;
            assert(s[i].0 == k);
        }
        if exists|i: int| 0 <= i < s.len() && s[i].0 == k {
            let i = choose|i: int| 0 <= i < s.len() && s[i].0 == k;
            if i < s.len() - 1 {
                assert(s.drop_last()[i].0 == k);
            }
        }
    }
}

/// With distinct names, the map sends the name of pair `i` to its value.
pub proof fn lemma_pairs_map_index(s: Seq<(Seq<char>, Seq<char>)>, i: int)
    requires
        names_distinct(s),
        0 <= i < s.len(),
    ensures
        pairs_map(s).contains_key(s[i].0),
        pairs_map(s)[s[i].0] == s[i].1,
    decreases s.len(),
{
    if i < s.len() - 1 {
        lemma_pairs_map_index(s.drop_last(), i);
    }
}

/// Replacing the value of pair `i` replaces the value of its name in the map.
pub proof fn lemma_pairs_map_update(s: Seq<(Seq<char>, Seq<char>)>, i: int, v: Seq<char>)
    requires
        names_distinct(s),
        0 <= i < s.len(),
    ensures
        pairs_map(s.update(i, (s[i].0, v))) == pairs_map(s).insert(s[i].0, v),
    decreases s.len(),
{
    let t = s.update(i, (s[i].0, v));
    if i == s.len() - 1 {
        assert(t.drop_last() == s.drop_last());
        if pairs_map(s.drop_last()).contains_key(s[i].0) {
            lemma_pairs_map_dom(s.drop_last(), s[i].0);
        }
        assert(pairs_map(t) =~= pairs_map(s).insert(s[i].0, v));
    } else {
        assert(t.drop_last() == s.drop_last().update(i, (s[i].0, v)));
        lemma_pairs_map_update(s.drop_last(), i, v);
        assert(s.last().0 != s[i].0);
        assert(pairs_map(t) =~= pairs_map(s).insert(s[i].0, v));
    }
}

/// A set of request headers: each name maps to one value.
#[derive(Debug, Clone)]
pub struct Headers {
    entries: Vec<(String, String)>,
}

impl Headers {
    /// The pairs in the order they were first inserted.
    pub closed spec fn pairs(&self) -> Seq<(Seq<char>, Seq<char>)> {
        self.entries@.map_values(|e: (String, String)| (e.0@, e.1@))
    }

    /// Each name occurs once.
    pub closed spec fn wf(&self) -> bool {
        names_distinct(self.pairs())
    }

    /// The headers as a map from name to value.
    pub closed spec fn view(&self) -> Map<Seq<char>, Seq<char>> {
        pairs_map(self.pairs())
    }

    /// No headers.
    pub fn new() -> (h: Headers)
        ensures
            h.wf(),
            h.view() == Map::<Seq<char>, Seq<char>>::empty(),
    {
        let h = Headers { entries: Vec::new() };
        assert(h.pairs() =~= Seq::<(Seq<char>, Seq<char>)>::empty());
        h
    }

    /// The number of headers.
    pub fn len(&self) -> (n: usize)
        requires
            self.wf(),
        ensures
            n == self.view().len(),
    {
        proof {
            self.lemma_len();
        }
        self.entries.len()
    }

    proof fn lemma_len(&self)
        requires
            self.wf(),
        ensures
            self.view().len() == self.entries@.len(),
    {
        let s = self.pairs();
        assert(s.len() == self.entries@.len());
        lemma_distinct_map_len(s);
    }

    /// Sets the value of `name`, replacing the value it had.
    pub fn insert(&mut self, name: String, value: String)
        requires
            old(self).wf(),
        ensures
            final(self).wf(),
            final(self).view() == old(self).view().insert(name@, value@),
    {
        let ghost s0 = self.pairs();
        let n = self.entries.len();
        let mut i: usize = 0;
        while i < n
            invariant
                n == self.entries@.len(),
                s0 == self.pairs(),
                s0 == old(self).pairs(),
                names_distinct(s0),
                i <= n,
                forall|j: int| 0 <= j < i ==> s0[j].0 != name@,
            decreases n - i,
        {
            let same = self.entries[i].0 == name;
            if same {
                let ghost old_pairs = self.pairs();
                assert(old_pairs[i as int].0 == name@);
                self.entries.set(i, (name, value));
                proof {
                    assert(self.pairs() =~= old_pairs.update(i as int, (old_pairs[i as int].0, value@)));
                    lemma_pairs_map_update(old_pairs, i as int, value@);
                }
                return;
            }
            i = i + 1;
        }
        self.entries.push((name, value));
        proof {
            assert(self.pairs() =~= s0.push((name@, value@)));
            assert(self.pairs().drop_last() =~= s0);
        }
    }

    /// The pairs, for handing them to an HTTP client.
    pub fn pairs_vec(&self) -> (v: &Vec<(String, String)>)
        ensures
            v@.map_values(|e: (String, String)| (e.0@, e.1@)) == self.pairs(),
    {
        &self.entries
    }
}

/// With distinct names, the map has as many keys as there are pairs.
pub proof fn lemma_distinct_map_len(s: Seq<(Seq<char>, Seq<char>)>)
    requires
        names_distinct(s),
    ensures
        pairs_map(s).dom().finite(),
        pairs_map(s).len() == s.len(),
    decreases s.len(),
{
    if s.len() > 0 {
        let t = s.drop_last();
        lemma_distinct_map_len(t);
        if pairs_map(t).contains_key(s.last().0) {
            lemma_pairs_map_dom(t, s.last().0);
        }
    }
}

/// `p` is the position of the first `:` in `s`.
pub open spec fn is_first_colon(s: Seq<char>, p: int) -> bool {
    0 <= p < s.len() && s[p] == ':' && forall|j: int| 0 <= j < p ==> s[j] != ':'
}

/// The name and value of a `Name: Value` line: what comes before and after
/// its first colon, each trimmed of white space; nothing if it has no colon.
pub open spec fn header_line_parts(s: Seq<char>) -> Option<(Seq<char>, Seq<char>)> {
    if exists|p: int| is_first_colon(s, p) {
        let p = choose|p: int| is_first_colon(s, p);
        Some((trim_text(s.take(p)), trim_text(s.skip(p + 1))))
    } else {
        None
    }
}

/// The headers that a list of `Name: Value` lines sets, later lines for a
/// name taking precedence; lines without a colon set nothing.
pub open spec fn header_lines_map(lines: Seq<Seq<char>>) -> Map<Seq<char>, Seq<char>>
    decreases lines.len(),
{
    if lines.len() == 0 {
        Map::empty()
    } else {
        let before = header_lines_map(lines.drop_last());
        match header_line_parts(lines.last()) {
            Some(parts) => before.insert(parts.0, parts.1),
            None => before,
        }
    }
}

/// Splits a `Name: Value` line at its first colon and trims both sides.
pub fn parse_header_line(line: &str) -> (parts: Option<(String, String)>)
    ensures
        parts matches Some(p) ==> header_line_parts(line@) == Some((p.0@, p.1@)),
        parts is None ==> header_line_parts(line@) is None,
{
    let len = line.unicode_len();
    let mut p: usize = 0;
    while p < len && line.get_char(p) != ':'
        invariant
            p <= len,
            len == line@.len(),
            forall|j: int| 0 <= j < p ==> line@[j] != ':',
        decreases len - p,
    {
        p = p + 1;
    }
    if p == len {
        proof {
            assert forall|q: int| !is_first_colon(line@, q) by {
                if is_first_colon(line@, q) {
                    assert(line@[q] != ':');
                }
            }
        }
        return None;
    }
    proof {
        assert(is_first_colon(line@, p as int));
        let q = choose|q: int| is_first_colon(line@, q);
        if q < p {
            assert(line@[q] != ':');
        } else if q > p {
            assert(line@[p as int] != ':');
        }
        assert(line@.take(p as int) =~= line@.subrange(0, p as int));
        assert(line@.skip(p + 1) =~= line@.subrange(p + 1, len as int));
    }
    let name = trim(line.substring_char(0, p));
    let value = trim(line.substring_char(p + 1, len));
    Some((name, value))
}

/// The headers of the command line's `Name: Value` lines.
pub fn headers_from_lines(lines: &Vec<String>) -> (headers: Headers)
    ensures
        headers.wf(),
        headers.view() == header_lines_map(lines@.map_values(|l: String| l@)),
{
    let mut headers = Headers::new();
    let n = lines.len();
    let mut i: usize = 0;
    let ghost all = lines@.map_values(|l: String| l@);
    while i < n
        invariant
            n == lines@.len(),
            i <= n,
            all == lines@.map_values(|l: String| l@),
            headers.wf(),
            headers.view() == header_lines_map(all.take(i as int)),
        decreases n - i,
    {
        let parsed = parse_header_line(lines[i].as_str());
        proof {
            assert(all.take(i + 1).drop_last() =~= all.take(i as int));
            assert(all.take(i + 1).last() == lines@[i as int]@);
        }
        match parsed {
            Some(parts) => {
                headers.insert(parts.0, parts.1);
            },
            None => {},
        }
        i = i + 1;
    }
    proof {
        assert(all.take(n as int) =~= all);
    }
    headers
}

/// `c` may appear in a header name: an ASCII letter or digit, or one of
/// ``!#$%&'*+-.^_`|~``.
pub open spec fn is_token_char(c: char) -> bool {
    ||| 'a' <= c <= 'z'
    ||| 'A' <= c <= 'Z'
    ||| '0' <= c <= '9'
    ||| c == '!' || c == '#' || c == '$' || c == '%' || c == '&' || c == '\'' || c == '*'
    ||| c == '+' || c == '-' || c == '.' || c == '^' || c == '_' || c == '`' || c == '|' || c == '~'
}

/// A header name that the HTTP client takes: 1 to 65535 token characters.
pub open spec fn valid_header_name(s: Seq<char>) -> bool {
    1 <= s.len() <= 65535 && forall|i: int| 0 <= i < s.len() ==> is_token_char(#[trigger] s[i])
}

/// A header value that the HTTP client takes: no control character but
/// horizontal tab (every character at least U+0020 and not U+007F, or a tab).
pub open spec fn valid_header_value(s: Seq<char>) -> bool {
    forall|i: int|
        0 <= i < s.len() ==> ((#[trigger] s[i] as u32 >= 32 && s[i] as u32 != 127) || s[i] as u32 == 9)
}

/// Whether `reqwest::header::HeaderName::from_str` accepts `name`: by the
/// `http` crate's source, exactly when it is 1 to 65535 bytes long and every
/// byte is a token character (which also makes it ASCII).
#[verifier::external_body]
fn header_name_accepted(name: &str) -> (ok: bool)
    ensures
        ok == valid_header_name(name@),
{
    name.parse::<reqwest::header::HeaderName>().is_ok()
}

/// Whether `reqwest::header::HeaderValue::from_str` accepts `value`: by the
/// `http` crate's source, exactly when every byte is at least 32 and not
/// 127, or is a tab; the bytes of a non-ASCII character are all above 127.
#[verifier::external_body]
fn header_value_accepted(value: &str) -> (ok: bool)
    ensures
        ok == valid_header_value(value@),
{
    reqwest::header::HeaderValue::from_str(value).is_ok()
}

/// The pairs of `s` that the HTTP client takes, in order.
pub open spec fn sendable_pairs(s: Seq<(Seq<char>, Seq<char>)>) -> Seq<(Seq<char>, Seq<char>)>
    decreases s.len(),
{
    if s.len() == 0 {
        s
    } else {
        let before = sendable_pairs(s.drop_last());
        if valid_header_name(s.last().0) && valid_header_value(s.last().1) {
            before.push(s.last())
        } else {
            before
        }
    }
}

/// The part of the header map `m` that the HTTP client takes: the names
/// and values that are valid, with the others left out.
pub open spec fn sendable_map(m: Map<Seq<char>, Seq<char>>) -> Map<Seq<char>, Seq<char>> {
    Map::new(
        |k: Seq<char>| m.contains_key(k) && valid_header_name(k) && valid_header_value(m[k]),
        |k: Seq<char>| m[k],
    )
}

/// With distinct names, the pairs kept for sending still have distinct names
/// and denote the valid part of the map of all pairs.
pub proof fn lemma_sendable_pairs_map(s: Seq<(Seq<char>, Seq<char>)>)
    requires
        names_distinct(s),
    ensures
        names_distinct(sendable_pairs(s)),
        pairs_map(sendable_pairs(s)) == sendable_map(pairs_map(s)),
    decreases s.len(),
{
    if s.len() == 0 {
        assert(pairs_map(s) =~= Map::<Seq<char>, Seq<char>>::empty());
        assert(sendable_map(pairs_map(s)) =~= Map::<Seq<char>, Seq<char>>::empty());
    } else {
        let t = s.drop_last();
        let l = s.last();
        lemma_sendable_pairs_map(t);
        lemma_pairs_map_dom(t, l.0);
        if pairs_map(t).contains_key(l.0) {
            let i = choose|i: int| 0 <= i < t.len() && t[i].0 == l.0;
            assert(s[i].0 == s[s.len() - 1].0);
        }
        let sp = sendable_pairs(t);
        lemma_pairs_map_dom(sp, l.0);
        if valid_header_name(l.0) && valid_header_value(l.1) {
            let sq = sp.push(l);
            assert forall|i: int, j: int| 0 <= i < j < sq.len() implies sq[i].0 != sq[j].0 by {
                if j == sq.len() - 1 {
                    if sq[i].0 == l.0 {
                        assert(sp[i].0 == l.0);
                        assert(pairs_map(sp).contains_key(l.0));
                    }
                } else {
                    assert(sq[i] == sp[i] && sq[j] == sp[j]);
                }
            }
            assert(sq.drop_last() =~= sp);
            assert(pairs_map(sq) =~= sendable_map(pairs_map(s)));
        } else {
            assert(pairs_map(sp) =~= sendable_map(pairs_map(s)));
        }
    }
}

impl Headers {
    /// The view is the map of the pairs, and the headers are well formed
    /// exactly when no name occurs twice among them.
    pub proof fn lemma_view_is_pairs(&self)
        ensures
            self.view() == pairs_map(self.pairs()),
            self.wf() <==> names_distinct(self.pairs()),
    {
    }

    /// The headers that go on every request of a download: those whose name
    /// and value the HTTP client takes; the others are left out. Of
    /// well-formed headers these are exactly the valid part of the map, each
    /// name once.
    pub fn sendable(&self) -> (pairs: Vec<(String, String)>)
        ensures
            pairs@.map_values(|e: (String, String)| (e.0@, e.1@)) == sendable_pairs(self.pairs()),
            self.wf() ==> names_distinct(pairs@.map_values(|e: (String, String)| (e.0@, e.1@))),
            self.wf() ==> pairs_map(pairs@.map_values(|e: (String, String)| (e.0@, e.1@)))
                == sendable_map(self.view()),
    {
        let mut out: Vec<(String, String)> = Vec::new();
        let n = self.entries.len();
        let mut i: usize = 0;
        let ghost all = self.pairs();
        while i < n
            invariant
                n == self.entries@.len(),
                i <= n,
                all == self.pairs(),
                out@.map_values(|e: (String, String)| (e.0@, e.1@)) == sendable_pairs(
                    all.take(i as int),
                ),
            decreases n - i,
        {
            let name = &self.entries[i].0;
            let value = &self.entries[i].1;
            proof {
                assert(all.take(i + 1).drop_last() =~= all.take(i as int));
                assert(all.take(i + 1).last() == (name@, value@));
            }
            if header_name_accepted(name.as_str()) && header_value_accepted(value.as_str()) {
                let ghost before = out@.map_values(|e: (String, String)| (e.0@, e.1@));
                out.push((name.clone(), value.clone()));
                proof {
                    assert(out@.map_values(|e: (String, String)| (e.0@, e.1@)) =~= before.push(
                        (name@, value@),
                    ));
                }
            }
            i = i + 1;
        }
        proof {
            assert(all.take(n as int) =~= all);
            if self.wf() {
                lemma_sendable_pairs_map(all);
            }
        }
        out
    }
}

} // verus!
