use tpt_zero_text::url_encode::{decode, encode, percent_decode_into, percent_encode_into, EncodeSet};
use tpt_zero_text::xml_escape::{escape, escape_into, unescape, unescape_into};

#[test]
fn encode_unreserved_passthrough() {
    let mut buf = [0u8; 64];
    let n = percent_encode_into(b"abc-_.~XYZ", EncodeSet::Full, &mut buf).unwrap();
    assert_eq!(&buf[..n], b"abc-_.~XYZ");
}

#[test]
fn encode_spaces_and_symbols() {
    let mut buf = [0u8; 64];
    let n = percent_encode_into(b"a b&c=d", EncodeSet::Full, &mut buf).unwrap();
    assert_eq!(&buf[..n], b"a%20b%26c%3Dd");
}

#[test]
fn component_keeps_slash() {
    let mut buf = [0u8; 64];
    let n = percent_encode_into(b"a/b c", EncodeSet::Component, &mut buf).unwrap();
    assert_eq!(&buf[..n], b"a/b%20c");
}

#[test]
fn decode_basic() {
    let mut buf = [0u8; 64];
    let n = percent_decode_into(b"a%20b%26c", &mut buf).unwrap();
    assert_eq!(&buf[..n], b"a b&c");
}

#[test]
fn decode_lowercase_hex() {
    let mut buf = [0u8; 64];
    let n = percent_decode_into(b"%3d", &mut buf).unwrap();
    assert_eq!(&buf[..n], b"=");
}

#[test]
fn roundtrip_full() {
    let input = b"hello world/foo?bar=baz#frag";
    let mut enc = [0u8; 128];
    let n = percent_encode_into(input, EncodeSet::Full, &mut enc).unwrap();
    let mut dec = [0u8; 128];
    let m = percent_decode_into(&enc[..n], &mut dec).unwrap();
    assert_eq!(&dec[..m], input);
}

#[test]
fn lib_buffer_too_small() {
    let mut buf = [0u8; 2];
    assert_eq!(percent_encode_into(b"abc", EncodeSet::Full, &mut buf), None);
}

#[test]
fn lib_alloc_wrappers() {
    assert_eq!(encode(b"a b", EncodeSet::Full), "a%20b");
    assert_eq!(decode(b"a%20b"), "a b");
}

#[test]
fn url_decode_keeps_malformed_escapes() {
    let mut buf = [0u8; 16];
    let n = percent_decode_into(b"%zz%4", &mut buf).unwrap();
    assert_eq!(&buf[..n], b"%zz%4");
    let n = percent_decode_into(b"a+b", &mut buf).unwrap();
    assert_eq!(&buf[..n], b"a+b");
}

#[test]
fn url_decode_too_small() {
    let mut buf = [0u8; 1];
    assert_eq!(percent_decode_into(b"ab", &mut buf), None);
}

#[test]
fn url_encode_high_bytes() {
    let mut buf = [0u8; 16];
    let n = percent_encode_into(&[0xFF, 0x00], EncodeSet::Full, &mut buf).unwrap();
    assert_eq!(&buf[..n], b"%FF%00");
}

#[test]
fn url_roundtrip_every_byte() {
    let input: Vec<u8> = (0u8..=255).collect();
    let mut enc = [0u8; 1024];
    let n = percent_encode_into(&input, EncodeSet::Full, &mut enc).unwrap();
    let mut dec = [0u8; 1024];
    let m = percent_decode_into(&enc[..n], &mut dec).unwrap();
    assert_eq!(&dec[..m], &input[..]);
}

#[test]
fn escape_basic() {
    let mut buf = [0u8; 64];
    let n = escape_into(b"<a>&'\"", &mut buf).unwrap();
    assert_eq!(&buf[..n], b"&lt;a&gt;&amp;&apos;&quot;");
}

#[test]
fn unescape_basic() {
    let mut buf = [0u8; 64];
    let n = unescape_into(b"&lt;a&gt;&amp;&apos;&quot;", &mut buf).unwrap();
    assert_eq!(&buf[..n], b"<a>&'\"");
}

#[test]
fn numeric_decimal() {
    let mut buf = [0u8; 64];
    let n = unescape_into(b"&#65;", &mut buf).unwrap();
    assert_eq!(&buf[..n], b"A");
}

#[test]
fn numeric_hex() {
    let mut buf = [0u8; 64];
    let n = unescape_into(b"&#x41;", &mut buf).unwrap();
    assert_eq!(&buf[..n], b"A");
}

#[test]
fn unknown_entity_verbatim() {
    let mut buf = [0u8; 64];
    let n = unescape_into(b"&copy;", &mut buf).unwrap();
    assert_eq!(&buf[..n], b"&copy;");
}

#[test]
fn lib_escape_roundtrip() {
    let input = b"<tag attr=\"v&x\">text</tag>";
    let mut e = [0u8; 128];
    let n = escape_into(input, &mut e).unwrap();
    let mut d = [0u8; 128];
    let m = unescape_into(&e[..n], &mut d).unwrap();
    assert_eq!(&d[..m], input);
}

#[test]
fn buffer_too_small() {
    let mut buf = [0u8; 2];
    assert_eq!(escape_into(b"<", &mut buf), None);
}

#[test]
fn alloc_wrappers() {
    assert_eq!(escape(b"<>&"), "&lt;&gt;&amp;");
    assert_eq!(unescape(b"&lt;&gt;&amp;"), "<>&");
}

#[test]
fn xml_roundtrip_every_byte() {
    let input: Vec<u8> = (0u8..=255).collect();
    let mut e = [0u8; 2048];
    let n = escape_into(&input, &mut e).unwrap();
    let mut d = [0u8; 2048];
    let m = unescape_into(&e[..n], &mut d).unwrap();
    assert_eq!(&d[..m], &input[..]);
}

#[test]
fn xml_unterminated_reference_verbatim() {
    let mut buf = [0u8; 16];
    let n = unescape_into(b"a&amp", &mut buf).unwrap();
    assert_eq!(&buf[..n], b"a&amp");
}

#[test]
fn unescape_markup_only_is_unchanged() {
    let input: &[u8] = b"<>&'\"&&<";
    let mut d = [0u8; 64];
    let m = unescape_into(input, &mut d).unwrap();
    assert_eq!(&d[..m], input);
    assert!(!d[..m].windows(5).any(|w| w == b"&amp;"));
    assert!(!d[..m].windows(4).any(|w| w == b"&lt;"));
    assert!(!d[..m].windows(4).any(|w| w == b"&gt;"));
}

#[test]
fn encode_long_input() {
    let input = [b' '; 300];
    assert_eq!(encode(&input, EncodeSet::Full), "%20".repeat(300));
    let encoded = "%41".repeat(400);
    assert_eq!(decode(encoded.as_bytes()), "A".repeat(400));
    assert_eq!(decode("z".repeat(2000).as_bytes()), "z".repeat(2000));
}

#[test]
fn escape_long_input() {
    let input = [b'<'; 300];
    assert_eq!(escape(&input), "&lt;".repeat(300));
    let escaped = "&amp;".repeat(300);
    assert_eq!(unescape(escaped.as_bytes()), "&".repeat(300));
    assert_eq!(unescape("y".repeat(2000).as_bytes()), "y".repeat(2000));
}
