use tpt_zero_text::decimal::{float_keyword, scan_decimal, DecimalParts, FloatKeyword};
use tpt_zero_text::glob::{matches_str, Pattern};
use tpt_zero_text::numstr::{format_int, format_int_to_string, parse_int};
use tpt_zero_text::str_search::{find, find_byte, rfind, rfind_byte, Finder};

#[test]
fn byte_basic() {
    assert_eq!(find_byte(b'a', b"banana"), Some(1));
    assert_eq!(rfind_byte(b'a', b"banana"), Some(5));
    assert_eq!(find_byte(b'z', b"banana"), None);
}

#[test]
fn substring_basic() {
    assert_eq!(find(b"ana", b"banana"), Some(1));
    assert_eq!(rfind(b"ana", b"banana"), Some(3));
    assert_eq!(find(b"xyz", b"banana"), None);
    assert_eq!(find(b"", b"banana"), Some(0));
    assert_eq!(find(b"banana", b"banana"), Some(0));
}

#[test]
fn substring_longer_haystack() {
    let h = b"The quick brown fox jumps over the lazy dog";
    assert_eq!(find(b"lazy", h), Some(35));
    assert_eq!(rfind(b"the", h), Some(31));
    assert_eq!(find(b"dog", h), Some(40));
}

#[test]
fn needle_longer_than_haystack() {
    assert_eq!(find(b"abcd", b"abc"), None);
}

#[test]
fn repeated_needle() {
    assert_eq!(find(b"aa", b"baaabaa"), Some(1));
    assert_eq!(rfind(b"aa", b"baaabaa"), Some(5));
}

#[test]
fn finder_reuse_and_empty() {
    let f = Finder::new(b"ab");
    assert_eq!(f.find_in(b"xxabab"), Some(2));
    assert_eq!(f.rfind_in(b"xxabab"), Some(4));
    assert_eq!(f.find_in(b"a"), None);
    assert_eq!(rfind(b"", b"abc"), Some(3));
    assert_eq!(rfind_byte(b'q', b""), None);
}

#[test]
fn literal() {
    assert!(matches_str("foo", "foo"));
    assert!(!matches_str("foo", "bar"));
}

#[test]
fn star() {
    assert!(matches_str("f*", "foo"));
    assert!(matches_str("*o", "foo"));
    assert!(matches_str("*", "anything"));
    assert!(matches_str("f*o", "foo"));
    assert!(!matches_str("a*", "ba"));
}

#[test]
fn qmark() {
    assert!(matches_str("f?o", "foo"));
    assert!(!matches_str("f?o", "fo"));
    assert!(!matches_str("f?o", "fooo"));
}

#[test]
fn class_basic() {
    assert!(matches_str("[abc]", "b"));
    assert!(!matches_str("[abc]", "d"));
    assert!(matches_str("[a-z]", "m"));
    assert!(!matches_str("[a-z]", "M"));
}

#[test]
fn class_negated() {
    assert!(matches_str("[!0-9]", "a"));
    assert!(!matches_str("[!0-9]", "5"));
}

#[test]
fn segments() {
    assert!(matches_str("src/*.rs", "src/lib.rs"));
    assert!(!matches_str("src/*.rs", "src/a/b.rs"));
    assert!(matches_str("a/b/c", "a/b/c"));
    assert!(!matches_str("a/b", "a/b/c"));
}

#[test]
fn starstar() {
    assert!(matches_str("src/**/*.rs", "src/lib.rs"));
    assert!(matches_str("src/**/*.rs", "src/a/b/c.rs"));
    assert!(matches_str("**", "a/b/c/d"));
    assert!(matches_str("a/**/z", "a/b/c/z"));
    assert!(!matches_str("a/**/z", "a/y"));
}

#[test]
fn mixed() {
    assert!(matches_str("**/[a-z]*.txt", "x/y/foo.txt"));
    assert!(matches_str("images/*.png", "images/a.png"));
}

#[test]
fn compiled_pattern_reuse() {
    let p = Pattern::compile_str("build/**/*.o");
    assert!(p.matches_str("build/obj/foo.o"));
    assert!(p.matches_str("build/foo.o"));
    assert!(!p.matches_str("build/foo.c"));
}

#[test]
fn glob_bytes_and_star_slash() {
    assert!(tpt_zero_text::glob::matches(b"*.*", b"a.b"));
    assert!(!tpt_zero_text::glob::matches(b"*.*", b"ab"));
    assert!(!tpt_zero_text::glob::matches(b"*", b"a/b"));
    assert!(tpt_zero_text::glob::matches(b"", b""));
    assert!(!tpt_zero_text::glob::matches(b"", b"a"));
    let p = Pattern::compile(b"?");
    assert!(!p.matches(b"/"));
}

#[test]
fn int_format_basic() {
    let mut buf = [0u8; 32];
    let s = core::str::from_utf8(format_int(12345i32, 10, &mut buf).unwrap()).unwrap();
    assert_eq!(s, "12345");
    let s = core::str::from_utf8(format_int(-123i32, 10, &mut buf).unwrap()).unwrap();
    assert_eq!(s, "-123");
    let s = core::str::from_utf8(format_int(255u8, 16, &mut buf).unwrap()).unwrap();
    assert_eq!(s, "ff");
    let s = core::str::from_utf8(format_int(0i32, 10, &mut buf).unwrap()).unwrap();
    assert_eq!(s, "0");
}

#[test]
fn int_parse_basic() {
    assert_eq!(parse_int::<i32>(b"12345", 10), Some(12345));
    assert_eq!(parse_int::<i32>(b"-123", 10), Some(-123));
    assert_eq!(parse_int::<u8>(b"ff", 16), Some(255));
    assert_eq!(parse_int::<i32>(b"+7", 10), Some(7));
    assert_eq!(parse_int::<i32>(b"", 10), None);
    assert_eq!(parse_int::<i32>(b"12g", 10), None);
}

#[test]
fn int_roundtrip_small() {
    for v in -500i32..500 {
        let mut buf = [0u8; 32];
        let s = format_int(v, 10, &mut buf).unwrap();
        let back = parse_int::<i32>(s, 10).unwrap();
        assert_eq!(back, v);
    }
}

#[test]
fn int_edges() {
    let mut buf = [0u8; 70];
    let s = format_int(i64::MIN, 10, &mut buf).unwrap();
    assert_eq!(s, b"-9223372036854775808");
    assert_eq!(parse_int::<i64>(b"-9223372036854775808", 10), Some(i64::MIN));
    assert_eq!(parse_int::<u8>(b"256", 10), None);
    assert_eq!(parse_int::<u8>(b"-1", 10), None);
    assert_eq!(parse_int::<i32>(b"z", 36), Some(35));
    assert_eq!(parse_int::<i32>(b"1", 1), None);
    let mut small = [0u8; 2];
    assert_eq!(format_int(123i32, 10, &mut small), None);
    assert_eq!(format_int(5i32, 37, &mut buf), None);
    let s = format_int(u64::MAX, 2, &mut buf).unwrap();
    assert_eq!(s.len(), 64);
}

#[test]
fn int_to_string() {
    assert_eq!(format_int_to_string(42i32, 10).unwrap(), "42");
    assert_eq!(format_int_to_string(-255i32, 16).unwrap(), "-ff");
}

#[test]
fn int_wide_values() {
    let mut buf = [0u8; 140];
    let s = format_int(u128::MAX, 16, &mut buf).unwrap();
    assert_eq!(s, "f".repeat(32).as_bytes());
    let s = format_int(u128::MAX, 2, &mut buf).unwrap();
    assert_eq!(s, "1".repeat(128).as_bytes());
    let s = format_int(i128::MIN, 2, &mut buf).unwrap();
    assert_eq!(s.len(), 129);
    assert_eq!(s[0], b'-');
    let min_text = b"-170141183460469231731687303715884105728";
    assert_eq!(parse_int::<i128>(min_text, 10), Some(i128::MIN));
    assert_eq!(parse_int::<i128>(b"170141183460469231731687303715884105728", 10), None);
    assert_eq!(parse_int::<i128>(b"-170141183460469231731687303715884105729", 10), None);
    let s = format_int(i128::MIN, 10, &mut buf).unwrap();
    assert_eq!(s, min_text);
    assert_eq!(format_int_to_string(u128::MAX, 2).unwrap(), "1".repeat(128));
    assert_eq!(format_int_to_string(7u8, 1), None);
}

fn parts(negative: bool, mantissa: u64, exponent: i128) -> Option<DecimalParts> {
    Some(DecimalParts { negative, mantissa, exponent })
}

#[test]
fn decimal_parts_of_plain_and_scientific() {
    assert_eq!(scan_decimal(b"-12.50e3"), parts(true, 1250, 1));
    assert_eq!(scan_decimal(b"0.001"), parts(false, 1, -3));
    assert_eq!(scan_decimal(b"+42"), parts(false, 42, 0));
    assert_eq!(scan_decimal(b"5."), parts(false, 5, 0));
    assert_eq!(scan_decimal(b".5"), parts(false, 5, -1));
    assert_eq!(scan_decimal(b"1E-7"), parts(false, 1, -7));
    assert_eq!(scan_decimal(b"1e"), parts(false, 1, 0));
    assert_eq!(scan_decimal(b"1e+"), parts(false, 1, 0));
    assert_eq!(scan_decimal(b"000"), parts(false, 0, 0));
}

#[test]
fn decimal_keeps_seventeen_significant_digits() {
    assert_eq!(scan_decimal(b"123456789012345678901"), parts(false, 12345678901234567, 4));
    assert_eq!(scan_decimal(b"0.000123456789012345678"), parts(false, 12345678901234567, -20));
    assert_eq!(scan_decimal(b"123456789012345678"), parts(false, 12345678901234567, 1));
    assert_eq!(scan_decimal(b"1.234567890123456789"), parts(false, 12345678901234567, -16));
    assert_eq!(scan_decimal(b"100000000000000000000"), parts(false, 10000000000000000, 4));
    assert_eq!(scan_decimal(b"1234567890123456789.5e2"), parts(false, 12345678901234567, 4));
}

#[test]
fn decimal_exponent_saturates() {
    assert_eq!(scan_decimal(b"1e99999999999"), parts(false, 1, 2147483647));
    assert_eq!(scan_decimal(b"2.5e-99999999999"), parts(false, 25, -2147483648));
}

#[test]
fn decimal_rejects_malformed() {
    assert_eq!(scan_decimal(b"+"), None);
    assert_eq!(scan_decimal(b"."), None);
    assert_eq!(scan_decimal(b"e5"), None);
    assert_eq!(scan_decimal(b"1.2.3"), None);
    assert_eq!(scan_decimal(b"1e5e"), None);
    assert_eq!(scan_decimal(b"1e5.0"), None);
    assert_eq!(scan_decimal(b"1e++5"), None);
    assert_eq!(scan_decimal(b"12a"), None);
    assert_eq!(scan_decimal(b"--1"), None);
}

#[test]
fn float_keywords() {
    assert_eq!(float_keyword(b"NaN"), Some(FloatKeyword::Nan));
    assert_eq!(float_keyword(b"nan()"), Some(FloatKeyword::Nan));
    assert_eq!(float_keyword(b"INF"), Some(FloatKeyword::Infinity));
    assert_eq!(float_keyword(b"Infinity"), Some(FloatKeyword::Infinity));
    assert_eq!(float_keyword(b"+inf"), Some(FloatKeyword::Infinity));
    assert_eq!(float_keyword(b"-inf"), Some(FloatKeyword::NegInfinity));
    // only the first eight bytes are compared
    assert_eq!(float_keyword(b"infinityX"), Some(FloatKeyword::Infinity));
    assert_eq!(float_keyword(b"-infinity"), None);
    assert_eq!(float_keyword(b"1.5"), None);
    assert_eq!(float_keyword(b""), None);
}
