use hyperfetch::utils::{
    extract_filename_from_url, filename_from_url_path, format_bytes, format_duration, format_rate,
    parse_size, parse_size_normalized, SizeError,
};

/// The byte formatting of the command-line tool, in double precision.
fn float_format_bytes(bytes: u64) -> String {
    const UNITS: &[&str] = &["B", "KB", "MB", "GB", "TB"];
    let mut size = bytes as f64;
    let mut unit_index = 0;
    while size >= 1024.0 && unit_index < UNITS.len() - 1 {
        size /= 1024.0;
        unit_index += 1;
    }
    format!("{:.2} {}", size, UNITS[unit_index])
}

/// The size parsing of the command-line tool, in double precision.
fn float_parse_size(size_str: &str) -> Option<u64> {
    let size_str = size_str.trim().to_uppercase();
    let (number_part, suffix) = if size_str.ends_with('K') {
        (&size_str[..size_str.len() - 1], 1024u64)
    } else if size_str.ends_with('M') {
        (&size_str[..size_str.len() - 1], 1024u64.pow(2))
    } else if size_str.ends_with('G') {
        (&size_str[..size_str.len() - 1], 1024u64.pow(3))
    } else if size_str.ends_with('T') {
        (&size_str[..size_str.len() - 1], 1024u64.pow(4))
    } else {
        (size_str.as_str(), 1u64)
    };
    let number: f64 = number_part.parse().ok()?;
    Some((number * suffix as f64) as u64)
}

fn lcg(state: &mut u64) -> u64 {
    *state = state.wrapping_mul(6364136223846793005).wrapping_add(1442695040888963407);
    *state
}

#[test]
fn format_duration_seconds_only() {
    assert_eq!(format_duration(0), "0s");
    assert_eq!(format_duration(59), "59s");
}

#[test]
fn format_duration_minutes() {
    assert_eq!(format_duration(60), "1m 0s");
    assert_eq!(format_duration(61), "1m 1s");
    assert_eq!(format_duration(3599), "59m 59s");
}

#[test]
fn format_duration_hours() {
    assert_eq!(format_duration(3600), "1h 0m 0s");
    assert_eq!(format_duration(3725), "1h 2m 5s");
    assert_eq!(format_duration(90061), "25h 1m 1s");
    assert_eq!(format_duration(u64::MAX), "5124095576030431h 0m 15s");
}

#[test]
fn format_bytes_units() {
    assert_eq!(format_bytes(0), "0.00 B");
    assert_eq!(format_bytes(1023), "1023.00 B");
    assert_eq!(format_bytes(1024), "1.00 KB");
    assert_eq!(format_bytes(1536), "1.50 KB");
    assert_eq!(format_bytes(1048576), "1.00 MB");
    assert_eq!(format_bytes(1073741824), "1.00 GB");
    assert_eq!(format_bytes(1099511627776), "1.00 TB");
    assert_eq!(format_bytes(1125899906842624), "1024.00 TB");
}

#[test]
fn format_bytes_rounds_half_to_even() {
    // 1.125 KB and 1.375 KB lie exactly between two hundredths
    assert_eq!(format_bytes(1152), float_format_bytes(1152));
    assert_eq!(format_bytes(1408), float_format_bytes(1408));
    assert_eq!(format_bytes(1152), "1.12 KB");
    assert_eq!(format_bytes(1408), "1.38 KB");
}

#[test]
fn format_bytes_matches_double_arithmetic() {
    let mut state = 7u64;
    for k in 0..64 {
        for d in [0u64, 1, 2, 3] {
            let b = (1u64 << k).wrapping_add(d).wrapping_sub(2);
            assert_eq!(format_bytes(b), float_format_bytes(b), "bytes {}", b);
        }
    }
    for _ in 0..20000 {
        let r = lcg(&mut state);
        let b = r >> (r % 64);
        assert_eq!(format_bytes(b), float_format_bytes(b), "bytes {}", b);
    }
    for b in 0..5000u64 {
        let v = b * 8;
        assert_eq!(format_bytes(v), float_format_bytes(v), "bytes {}", v);
    }
    assert_eq!(format_bytes(u64::MAX), float_format_bytes(u64::MAX));
}

#[test]
fn format_rate_appends_per_second() {
    assert_eq!(format_rate(2048), "2.00 KB/s");
    assert_eq!(format_rate(0), "0.00 B/s");
}

#[test]
fn parse_size_suffixes() {
    assert_eq!(parse_size("1M"), Ok(1048576));
    assert_eq!(parse_size("512K"), Ok(524288));
    assert_eq!(parse_size("2G"), Ok(2147483648));
    assert_eq!(parse_size("1T"), Ok(1099511627776));
    assert_eq!(parse_size("100"), Ok(100));
    assert_eq!(parse_size("1.5M"), Ok(1572864));
}

#[test]
fn parse_size_lower_case_and_spaces() {
    // the unit letter counts in either case, as the text is put in upper case first
    assert_eq!(parse_size("  4m "), Ok(4194304));
    assert_eq!(parse_size("1k"), Ok(1024));
    assert_eq!(parse_size("1e3"), Ok(1000));
}

#[test]
fn parse_size_errors() {
    assert_eq!(parse_size(""), Err(SizeError::EmptyNumber));
    assert_eq!(parse_size("M"), Err(SizeError::EmptyNumber));
    assert_eq!(parse_size(" k "), Err(SizeError::EmptyNumber));
    assert_eq!(parse_size("+K"), Err(SizeError::InvalidNumber));
    assert_eq!(parse_size("abc"), Err(SizeError::InvalidNumber));
    assert_eq!(parse_size("1.2.3"), Err(SizeError::InvalidNumber));
    assert_eq!(parse_size("1 M"), Err(SizeError::InvalidNumber));
    assert_eq!(parse_size("0x10"), Err(SizeError::InvalidNumber));
    assert_eq!(SizeError::InvalidNumber.message(), "invalid float literal");
    assert_eq!(SizeError::EmptyNumber.message(), "cannot parse float from empty string");
    assert_eq!(SizeError::EmptyNumber.message(), "".parse::<f64>().unwrap_err().to_string());
    assert_eq!(SizeError::InvalidNumber.message(), "+".parse::<f64>().unwrap_err().to_string());
}

#[test]
fn parse_size_special_values() {
    assert_eq!(parse_size("-5"), Ok(0));
    assert_eq!(parse_size("nan"), Ok(0));
    assert_eq!(parse_size("inf"), Ok(u64::MAX));
    assert_eq!(parse_size("-infinity"), Ok(0));
    assert_eq!(parse_size("1e30"), Ok(u64::MAX));
    assert_eq!(parse_size("1e-30"), Ok(0));
    assert_eq!(parse_size("20000000T"), Ok(u64::MAX));
}

#[test]
fn parse_size_normalized_reads_upper_case_only_units() {
    assert_eq!(parse_size_normalized("2K"), Ok(2048));
    assert_eq!(parse_size_normalized("2k"), Err(SizeError::InvalidNumber));
    assert_eq!(parse_size_normalized("0.5T"), Ok(549755813888));
    assert_eq!(parse_size_normalized(".5"), Ok(0));
    assert_eq!(parse_size_normalized("5."), Ok(5));
}

#[test]
fn parse_size_matches_double_arithmetic() {
    let cases = [
        "0", "1", "1.5", "0.1", "0.9999999999999999999", "0.99999999999999994", "0.99999999999999995",
        "9007199254740993", "9007199254740995", "18446744073709551615", "18446744073709550591",
        "18446744073709550592", "18446744073709549568", "1.0000000000000002K", "3.3333333333333335M",
        "123456789.987654321G", "1e19", "1.8446744073709552e19", "1e-5", "1E+3", "+7", "-0",
        "00000012.5000", "4503599627370495.5", "4503599627370496.5", "4503599627370497.5",
        "16777215.999999999T", "0.000000000000000000000000000000000000000000001T",
        "1e308", "2e308", "1e-400", ".0", "0.", "1e0000000000000000000000000000000005",
        "1e-00000000000000000000000000000000000000000000001", "INFINITY", "NaN", "-nan",
        "123456789012345678901234567890", "0.5", "1.5", "2.5", "0.75K", "9.99999999999999999M",
    ];
    for c in cases {
        assert_eq!(parse_size(c).ok(), float_parse_size(c), "size {:?}", c);
    }
    let mut state = 11u64;
    let suffixes = ["", "K", "M", "G", "T", "k", "m"];
    for _ in 0..20000 {
        let r = lcg(&mut state);
        let int_part = r % 100000;
        let frac_digits = (lcg(&mut state) % 25) as usize;
        let mut frac = String::new();
        for _ in 0..frac_digits {
            frac.push(char::from(b'0' + (lcg(&mut state) % 10) as u8));
        }
        let suffix = suffixes[(lcg(&mut state) % suffixes.len() as u64) as usize];
        let text = if frac_digits > 0 {
            format!("{}.{}{}", int_part, frac, suffix)
        } else {
            format!("{}{}", int_part, suffix)
        };
        assert_eq!(parse_size(&text).ok(), float_parse_size(&text), "size {:?}", text);
    }
}

#[test]
fn filename_from_url() {
    assert_eq!(extract_filename_from_url("https://example.com/files/big.iso"), "big.iso");
    assert_eq!(extract_filename_from_url("https://example.com/a/b?x=1"), "b");
    assert_eq!(extract_filename_from_url("https://example.com/dir/"), "downloaded_file");
    assert_eq!(extract_filename_from_url("https://example.com"), "downloaded_file");
    assert_eq!(extract_filename_from_url("not a url"), "downloaded_file");
    assert_eq!(extract_filename_from_url("data:text/plain,HelloWorld"), "downloaded_file");
}

#[test]
fn filename_from_parsed_path() {
    assert_eq!(filename_from_url_path(Some("/x/y/z.tar.gz")), "z.tar.gz");
    assert_eq!(filename_from_url_path(Some("/")), "downloaded_file");
    assert_eq!(filename_from_url_path(Some("no-slash")), "downloaded_file");
    assert_eq!(filename_from_url_path(Some("/only")), "only");
    assert_eq!(filename_from_url_path(None), "downloaded_file");
}

#[test]
fn size_ignores_case_and_surrounding_space() {
    for s in ["4m", "4M", "1.5g", "512k", "10", "2t", "abc", "", "k", "1e3K"] {
        let plain = parse_size(s);
        assert_eq!(parse_size(&format!(" \t{}\n ", s.to_ascii_lowercase())), plain, "text {:?}", s);
        assert_eq!(parse_size(&s.to_ascii_uppercase()), plain, "text {:?}", s);
    }
    assert_eq!(parse_size(" 4m "), Ok(4194304));
}

#[test]
fn filename_is_plain() {
    assert_eq!(extract_filename_from_url("https://e.com/my%20file"), "my%20file");
    assert_eq!(extract_filename_from_url("https://e.com/a%3Fb#frag"), "a%3Fb");
    assert_eq!(extract_filename_from_url("https://e.com/x?y/z#w/v"), "x");
    for u in ["https://e.com/a?b#c", "mailto:a?b", "https://e.com/%23", "file:///tmp/q"] {
        let n = extract_filename_from_url(u);
        assert!(!n.is_empty() && !n.contains('/') && !n.contains('?') && !n.contains('#'), "url {:?}", u);
    }
}
