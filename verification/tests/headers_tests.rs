use hyperfetch::headers::{headers_from_lines, parse_header_line, Headers};
use hyperfetch::text::trim;

fn sorted_pairs(h: &Headers) -> Vec<(String, String)> {
    let mut v = h.pairs_vec().clone();
    v.sort();
    v
}

#[test]
fn header_line_splits_at_first_colon() {
    assert_eq!(
        parse_header_line("Authorization: Bearer a:b"),
        Some(("Authorization".to_string(), "Bearer a:b".to_string()))
    );
    assert_eq!(parse_header_line("  Accept :  */*  "), Some(("Accept".to_string(), "*/*".to_string())));
    assert_eq!(parse_header_line("no colon here"), None);
    assert_eq!(parse_header_line(":"), Some((String::new(), String::new())));
}

#[test]
fn later_header_lines_win() {
    let lines = vec!["A: 1".to_string(), "bogus".to_string(), "B: 2".to_string(), "A: 3".to_string()];
    let h = headers_from_lines(&lines);
    assert_eq!(h.len(), 2);
    assert_eq!(sorted_pairs(&h), vec![("A".to_string(), "3".to_string()), ("B".to_string(), "2".to_string())]);
}

#[test]
fn insert_replaces_value() {
    let mut h = Headers::new();
    h.insert("X".to_string(), "1".to_string());
    h.insert("Y".to_string(), "2".to_string());
    h.insert("X".to_string(), "3".to_string());
    assert_eq!(h.len(), 2);
    assert_eq!(sorted_pairs(&h), vec![("X".to_string(), "3".to_string()), ("Y".to_string(), "2".to_string())]);
}

#[test]
fn only_valid_headers_are_sent() {
    let mut h = Headers::new();
    h.insert("Accept".to_string(), "*/*".to_string());
    h.insert("Bad Name".to_string(), "x".to_string());
    h.insert("X-Ctl".to_string(), "a\nb".to_string());
    h.insert("X-Tab".to_string(), "a\tb".to_string());
    h.insert("".to_string(), "empty name".to_string());
    h.insert("X-Utf8".to_string(), "caf\u{e9}".to_string());
    let sent = h.sendable();
    assert_eq!(
        sent,
        vec![
            ("Accept".to_string(), "*/*".to_string()),
            ("X-Tab".to_string(), "a\tb".to_string()),
            ("X-Utf8".to_string(), "caf\u{e9}".to_string()),
        ]
    );
}

#[test]
fn trim_like_std() {
    let cases = ["", "  ", " a ", "\u{3000}x\u{2028}", "\t\n a b \r", "\u{85}z\u{a0}", "abc"];
    for c in cases {
        assert_eq!(trim(c), c.trim(), "text {:?}", c);
    }
}

#[test]
fn inserted_valid_header_is_sent() {
    let mut h = Headers::new();
    h.insert("Accept".to_string(), "*/*".to_string());
    h.insert("Bad Name".to_string(), "x".to_string());
    h.insert("X-Ctl".to_string(), "a\u{7f}b".to_string());
    h.insert("X-Tab".to_string(), "a\tb".to_string());
    let mut sent = h.sendable();
    sent.sort();
    assert_eq!(
        sent,
        vec![("Accept".to_string(), "*/*".to_string()), ("X-Tab".to_string(), "a\tb".to_string())]
    );
}
