use tpt_zero_text::utf8::{encode_char, from_bytes, next_char_boundary, prev_char_boundary, Utf8Str};

#[test]
fn validate_ascii() {
    assert!(from_bytes(b"hello").is_ok());
}

#[test]
fn validate_utf8_multibyte() {
    let s = "héllo 世界 🦀";
    assert!(from_bytes(s.as_bytes()).is_ok());
    let v = from_bytes(s.as_bytes()).ok().unwrap();
    assert_eq!(v.as_str(), s);
}

#[test]
fn reject_truncated() {
    let err = match from_bytes(&[0xE2, 0x82]) {
        Err(e) => e,
        Ok(_) => panic!("expected an error"),
    };
    assert_eq!(err.valid_up_to, 0);
}

#[test]
fn reject_invalid_lead() {
    let err = match from_bytes(&[0xFE]) {
        Err(e) => e,
        Ok(_) => panic!("expected an error"),
    };
    assert_eq!(err.valid_up_to, 0);
}

#[test]
fn next_boundary_skips_cont() {
    let s = "é"; // 0xC3 0xA9
    let bytes = s.as_bytes();
    assert_eq!(next_char_boundary(bytes, 1), 2);
    assert_eq!(next_char_boundary(bytes, 2), 2);
}

#[test]
fn prev_boundary() {
    let s = "é";
    let bytes = s.as_bytes();
    assert_eq!(prev_char_boundary(bytes, 1), 0);
    assert_eq!(prev_char_boundary(bytes, 2), 0);
}

#[test]
fn char_indices_ok() {
    let s = "aé🦀";
    let v = from_bytes(s.as_bytes()).ok().unwrap();
    let mut collected = ['\0'; 3];
    let mut it = v.char_indices();
    let mut i = 0;
    while let Some((_, c)) = it.next() {
        collected[i] = c;
        i += 1;
    }
    assert_eq!(collected, ['a', 'é', '🦀']);
}

#[test]
fn char_indices_invalid_sentinel() {
    // 0xFF is an invalid lead byte; it should yield a surrogate sentinel.
    let v = Utf8Str::from_bytes_unchecked(&[0xFF, b'a']);
    let mut it = v.char_indices();
    let (_, c0) = it.next().unwrap();
    assert!((c0 as u32) >= 0xE000);
    let (_, c1) = it.next().unwrap();
    assert_eq!(c1, 'a');
}

#[test]
fn encode_char_roundtrip() {
    for &ch in &['a', 'é', '世', '🦀'] {
        let mut buf = [0u8; 4];
        let n = encode_char(ch, &mut buf).unwrap();
        let back = from_bytes(&buf[..n]).ok().unwrap();
        let mut cbuf = [0u8; 4];
        let cn = encode_char(ch, &mut cbuf).unwrap();
        let expected = core::str::from_utf8(&cbuf[..cn]).unwrap();
        assert_eq!(back.as_str(), expected);
    }
}

#[test]
fn encode_char_small_buf() {
    let mut buf = [0u8; 1];
    assert_eq!(encode_char('é', &mut buf), None);
}

#[test]
fn char_indices_offsets_and_end() {
    let v = from_bytes("aé".as_bytes()).ok().unwrap();
    let mut it = v.char_indices();
    assert_eq!(it.next(), Some((0, 'a')));
    assert_eq!(it.next(), Some((1, 'é')));
    assert_eq!(it.next(), None);
    assert_eq!(v.len(), 3);
    assert!(!v.is_empty());
}

#[test]
fn validation_error_len() {
    match from_bytes(&[b'a', 0xC3, b'b']) {
        Err(e) => {
            assert_eq!(e.valid_up_to, 1);
            assert_eq!(e.error_len, Some(1));
        }
        Ok(_) => panic!("expected an error"),
    }
    match from_bytes(&[b'a', 0xE2, 0x82]) {
        Err(e) => {
            assert_eq!(e.valid_up_to, 1);
            assert_eq!(e.error_len, None);
        }
        Ok(_) => panic!("expected an error"),
    }
}

#[test]
fn encode_char_four_bytes() {
    let mut buf = [0u8; 4];
    assert_eq!(encode_char('🦀', &mut buf), Some(4));
    assert_eq!(buf, [0xF0, 0x9F, 0xA6, 0x80]);
}
