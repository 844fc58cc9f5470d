use tpt_zero_text::csv::{read_records, CsvError, Field, Reader, Writer};
use tpt_zero_text::ini;
use tpt_zero_text::json::{JsonError, Token, Tokenizer};
use tpt_zero_text::json_tree::{parse_tree, to_json_string, Node};
use tpt_zero_text::toml;

#[test]
fn simple_rows() {
    let input = b"a,b,c\n1,2,3\n";
    let mut r = Reader::new(input);
    let n1 = r.next_row().unwrap().unwrap();
    assert_eq!(n1, 3);
    assert_eq!(r.field(0), Field::Borrowed(b"a"));
    assert_eq!(r.field(2), Field::Borrowed(b"c"));
    let n2 = r.next_row().unwrap().unwrap();
    assert_eq!(r.field(1), Field::Borrowed(b"2"));
    assert_eq!(n2, 3);
    assert!(r.next_row().unwrap().is_none());
}

#[test]
fn crlf_and_empty() {
    let input = b"x,y\r\n,,\r\n";
    let mut r = Reader::new(input);
    let n1 = r.next_row().unwrap().unwrap();
    assert_eq!(r.field(0), Field::Borrowed(b"x"));
    assert_eq!(n1, 2);
    let n2 = r.next_row().unwrap().unwrap();
    assert_eq!(n2, 3);
    assert_eq!(r.field(0), Field::Empty);
    assert_eq!(r.field(1), Field::Empty);
}

#[test]
fn quoted_field() {
    let input = b"\"hello, world\",\"say \"\"hi\"\"\"\n";
    let mut r = Reader::new(input);
    let n = r.next_row().unwrap().unwrap();
    assert_eq!(n, 2);
    match r.field(0) {
        Field::Buffered(b) => assert_eq!(b, b"hello, world"),
        other => panic!("expected buffered: {other:?}"),
    }
    match r.field(1) {
        Field::Buffered(b) => assert_eq!(b, b"say \"hi\""),
        other => panic!("expected buffered: {other:?}"),
    }
}

#[test]
fn quoted_embedded_newline() {
    let input = b"\"line1\nline2\",x\n";
    let mut r = Reader::new(input);
    let n = r.next_row().unwrap().unwrap();
    assert_eq!(n, 2);
    match r.field(0) {
        Field::Buffered(b) => assert_eq!(b, b"line1\nline2"),
        other => panic!("expected buffered: {other:?}"),
    }
}

#[test]
fn single_row_no_trailing_newline() {
    let input = b"only,one,row";
    let mut r = Reader::new(input);
    let n = r.next_row().unwrap().unwrap();
    assert_eq!(n, 3);
    assert_eq!(r.field(2), Field::Borrowed(b"row"));
    assert!(r.next_row().unwrap().is_none());
}

#[test]
fn read_records_works() {
    let recs = read_records(b"a,b\n1,2\n3,4").unwrap();
    assert_eq!(recs.len(), 3);
    assert_eq!(recs[0].fields, vec!["a", "b"]);
    assert_eq!(recs[2].fields, vec!["3", "4"]);
}

#[test]
fn lib_roundtrip() {
    let mut w = Writer::new();
    w.write_record(&["name", "note"]);
    w.write_record(&["tpt", "hello, \"world\""]);
    let s = w.into_string();
    let recs = read_records(s.as_bytes()).unwrap();
    assert_eq!(recs[0].fields, vec!["name", "note"]);
    assert_eq!(recs[1].fields, vec!["tpt", "hello, \"world\""]);
}

#[test]
fn quoted_escape_roundtrip() {
    let mut w = Writer::new();
    w.write_record(&["a\"b", "c\nd"]);
    let recs = read_records(w.into_string().as_bytes()).unwrap();
    assert_eq!(recs[0].fields, vec!["a\"b", "c\nd"]);
}

#[test]
fn csv_unterminated_quote() {
    let mut r = Reader::new(b"a,\"bc");
    assert_eq!(r.next_row(), Err(CsvError::UnterminatedQuote(2)));
}

#[test]
fn csv_quoted_last_field_at_end_of_input() {
    let mut r = Reader::new(b"x,\"ab\"");
    assert_eq!(r.next_row(), Ok(Some(2)));
    assert_eq!(r.field(0), Field::Borrowed(b"x"));
    assert_eq!(r.field(1), Field::Buffered(b"ab"));
    assert!(r.next_row().unwrap().is_none());
    let recs = read_records(b"\"p\"\"q\",\"\"").unwrap();
    assert_eq!(recs[0].fields, vec!["p\"q", ""]);
}

#[test]
fn csv_scratch_overflow_is_an_error() {
    let src = [&b"\""[..], &[b'a'; 512][..], &b"\"\"\""[..]].concat();
    let mut r = Reader::new(&src);
    assert_eq!(r.next_row(), Err(CsvError::BufferTooSmall));
    let src = [&b"\""[..], &[b'a'; 513][..], &b"\""[..]].concat();
    let mut r = Reader::new(&src);
    assert_eq!(r.next_row(), Err(CsvError::BufferTooSmall));
    assert_eq!(read_records(&src), Err(CsvError::BufferTooSmall));
    let src = [&b"\""[..], &[b'a'; 512][..], &b"\""[..]].concat();
    let recs = read_records(&src).unwrap();
    assert_eq!(recs[0].fields[0].len(), 512);
}

#[test]
fn csv_custom_delimiter_and_position() {
    let mut r = Reader::with_delimiter(b"a;b\nc", b';');
    assert_eq!(r.next_row(), Ok(Some(2)));
    assert_eq!(r.field(1), Field::Borrowed(b"b"));
    assert_eq!(r.position(), 4);
    assert_eq!(r.row_len(), 2);
    let mut w = Writer::with_delimiter(b';');
    w.write_record(&["x;y", "z"]);
    w.write_record(&[]);
    assert_eq!(w.into_string(), "\"x;y\";z\n\n");
}

#[test]
fn csv_owned_record_accessors() {
    let recs = read_records(b"p,q\n").unwrap();
    assert_eq!(recs[0].len(), 2);
    assert!(!recs[0].is_empty());
    assert_eq!(recs[0].get(1), Some("q"));
    assert_eq!(recs[0].get(2), None);
}

#[test]
fn csv_simple_roundtrip_rows() {
    let rows = [vec!["a1", "b2"], vec!["zz"], vec!["q", "r", "s"]];
    let mut w = Writer::default();
    for row in &rows {
        w.write_record(row);
    }
    let out = w.into_string();
    let recs = read_records(out.as_bytes()).unwrap();
    assert_eq!(recs.len(), rows.len());
    for (rec, orig) in recs.iter().zip(rows.iter()) {
        assert_eq!(&rec.fields, orig);
    }
}

#[test]
fn tokenizer_raw_string_fast_path() {
    let mut t = Tokenizer::new(br#"  "hello"  "#);
    assert_eq!(t.next_token().unwrap(), Token::StringRaw(b"hello"));
    assert_eq!(t.next_token().unwrap(), Token::Eof);
}

#[test]
fn tokenizer_literals_and_punct() {
    let mut t = Tokenizer::new(br#"{ "a": true, "b": false, "c": null }"#);
    assert_eq!(t.next_token().unwrap(), Token::ObjectStart);
    assert_eq!(t.next_token().unwrap(), Token::StringRaw(b"a"));
    assert_eq!(t.next_token().unwrap(), Token::Colon);
    assert_eq!(t.next_token().unwrap(), Token::True);
    assert_eq!(t.next_token().unwrap(), Token::Comma);
    assert_eq!(t.next_token().unwrap(), Token::StringRaw(b"b"));
    assert_eq!(t.next_token().unwrap(), Token::Colon);
    assert_eq!(t.next_token().unwrap(), Token::False);
    assert_eq!(t.next_token().unwrap(), Token::Comma);
    assert_eq!(t.next_token().unwrap(), Token::StringRaw(b"c"));
    assert_eq!(t.next_token().unwrap(), Token::Colon);
    assert_eq!(t.next_token().unwrap(), Token::Null);
    assert_eq!(t.next_token().unwrap(), Token::ObjectEnd);
    assert_eq!(t.next_token().unwrap(), Token::Eof);
}

#[test]
fn tokenizer_numbers() {
    let mut t = Tokenizer::new(b"123 -4.5 1.2e3 0");
    assert_eq!(t.next_token().unwrap(), Token::Number { bytes: b"123", negative: false });
    assert_eq!(t.next_token().unwrap(), Token::Number { bytes: b"-4.5", negative: true });
    assert_eq!(t.next_token().unwrap(), Token::Number { bytes: b"1.2e3", negative: false });
    assert_eq!(t.next_token().unwrap(), Token::Number { bytes: b"0", negative: false });
}

#[test]
fn tokenizer_escaped_string() {
    let mut t = Tokenizer::new(br#""a\tb\n\"c""#);
    match t.next_token().unwrap() {
        Token::StringChunk { bytes, last } => {
            assert_eq!(bytes, b"a\tb\n\"c");
            assert!(last);
        }
        other => panic!("unexpected token: {other:?}"),
    }
}

#[test]
fn tokenizer_unicode_escape() {
    let mut t = Tokenizer::new(br#""\u0041""#);
    match t.next_token().unwrap() {
        Token::StringChunk { bytes, last } => {
            assert_eq!(bytes, b"A");
            assert!(last);
        }
        other => panic!("unexpected token: {other:?}"),
    }
}

#[test]
fn lib_errors() {
    assert!(matches!(
        Tokenizer::new(b"\"\x01\"").next_token(),
        Err(JsonError::ControlCharInString(_))
    ));
    assert!(matches!(
        Tokenizer::new(b"\"\\x\"").next_token(),
        Err(JsonError::BadEscape(_))
    ));
}

#[test]
fn json_long_escaped_string_in_chunks() {
    let mut src = Vec::new();
    src.push(b'"');
    src.extend_from_slice(b"\\n");
    for _ in 0..70 {
        src.push(b'x');
    }
    src.push(b'"');
    let mut t = Tokenizer::new(&src);
    let mut total = Vec::new();
    match t.next_token().unwrap() {
        Token::StringChunk { bytes, last } => {
            assert_eq!(bytes.len(), 64);
            assert!(!last);
            total.extend_from_slice(bytes);
        }
        other => panic!("unexpected token: {other:?}"),
    }
    match t.next_token().unwrap() {
        Token::StringChunk { bytes, last } => {
            assert!(last);
            total.extend_from_slice(bytes);
        }
        other => panic!("unexpected token: {other:?}"),
    }
    assert_eq!(total.len(), 71);
    assert_eq!(total[0], b'\n');
    assert_eq!(t.next_token().unwrap(), Token::Eof);
}

#[test]
fn json_error_kinds() {
    assert_eq!(Tokenizer::new(b"-").next_token(), Err(JsonError::BadNumber(0)));
    assert_eq!(Tokenizer::new(b"1.").next_token(), Err(JsonError::BadNumber(0)));
    assert_eq!(Tokenizer::new(b" 1e+").next_token(), Err(JsonError::BadNumber(1)));
    assert_eq!(Tokenizer::new(b"tru").next_token(), Err(JsonError::UnexpectedByte(0)));
    assert_eq!(Tokenizer::new(b"  @").next_token(), Err(JsonError::UnexpectedByte(2)));
    assert_eq!(Tokenizer::new(b"\"abc").next_token(), Err(JsonError::UnexpectedEof));
    assert_eq!(Tokenizer::new(b"\"\xff\"").next_token(), Err(JsonError::InvalidUtf8(0)));
    assert_eq!(Tokenizer::new(b"\"\\u00g1\"").next_token(), Err(JsonError::BadEscape(2)));
    let mut t = Tokenizer::new(b"  ");
    assert_eq!(t.next_token(), Ok(Token::Eof));
    assert_eq!(t.position(), 2);
}

#[test]
fn json_multibyte_in_escaped_string() {
    let mut t = Tokenizer::new("\"\\u00e9é\"".as_bytes());
    match t.next_token().unwrap() {
        Token::StringChunk { bytes, last } => {
            assert_eq!(bytes, "éé".as_bytes());
            assert!(last);
        }
        other => panic!("unexpected token: {other:?}"),
    }
}

#[test]
fn key_value_separators() {
    let input = b"a = 1\nb: two\nc=three\n";
    let mut out = [ini::Entry::placeholder(); 8];
    let n = ini::parse_into(input, &mut out).unwrap();
    assert_eq!(n, 3);
    assert_eq!(out[0].key, b"a");
    assert_eq!(out[0].value, b"1");
    assert_eq!(out[1].key, b"b");
    assert_eq!(out[1].value, b"two");
    assert_eq!(out[2].value, b"three");
}

#[test]
fn lib_sections() {
    let input = b"[sec]\nx = 1\n[other]\ny = 2\n";
    let mut out = [ini::Entry::placeholder(); 8];
    let n = ini::parse_into(input, &mut out).unwrap();
    assert_eq!(n, 2);
    assert_eq!(out[0].section, Some(&b"sec"[..]));
    assert_eq!(out[1].section, Some(&b"other"[..]));
    assert_eq!(out[1].key, b"y");
}

#[test]
fn lib_comments_and_blank() {
    let input = b"; header\n# another\na = 1 ; trailing\n\nb = 2\n";
    let mut out = [ini::Entry::placeholder(); 8];
    let n = ini::parse_into(input, &mut out).unwrap();
    assert_eq!(n, 2);
    assert_eq!(out[0].value, b"1");
    assert_eq!(out[1].value, b"2");
}

#[test]
fn pre_section_entries() {
    let input = b"global = yes\n[sec]\nlocal = no\n";
    let mut out = [ini::Entry::placeholder(); 8];
    let n = ini::parse_into(input, &mut out).unwrap();
    assert_eq!(n, 2);
    assert_eq!(out[0].section, None);
    assert_eq!(out[1].section, Some(&b"sec"[..]));
}

#[test]
fn lib_errors_ini() {
    assert!(matches!(
        ini::parse_into(b"no separator here", &mut [ini::Entry::placeholder(); 8]),
        Err(ini::IniError::InvalidLine(_))
    ));
}

#[test]
fn ini_error_offsets_and_capacity() {
    let mut out = [ini::Entry::placeholder(); 1];
    assert_eq!(ini::parse_into(b"a=1\nb=2\n", &mut out), Err(ini::IniError::TooManyEntries));
    assert_eq!(out[0].key, b"a");
    let mut out = [ini::Entry::placeholder(); 4];
    assert_eq!(ini::parse_into(b"a=1\n[]\n", &mut out), Err(ini::IniError::InvalidLine(4)));
    assert_eq!(ini::parse_into(b"a=1\r\n = 2\n", &mut out), Err(ini::IniError::InvalidLine(5)));
}

#[test]
fn top_level_kv() {
    let input = b"a = 1\nb = \"hi\"\nc = true\n";
    let mut out = [toml::Entry::placeholder(); 8];
    let n = toml::parse_into(input, &mut out).unwrap();
    assert_eq!(n, 3);
    assert_eq!(out[0].key, b"a");
    assert_eq!(out[0].value, toml::Value::Integer(b"1"));
    assert_eq!(out[1].value, toml::Value::String(b"hi"));
    assert_eq!(out[2].value, toml::Value::Boolean(true));
}

#[test]
fn sections() {
    let input = b"[server]\nport = 8080\n[db]\nname = \"main\"\n";
    let mut out = [toml::Entry::placeholder(); 8];
    let n = toml::parse_into(input, &mut out).unwrap();
    assert_eq!(n, 2);
    assert_eq!(out[0].section, Some(&b"server"[..]));
    assert_eq!(out[0].key, b"port");
    assert_eq!(out[1].section, Some(&b"db"[..]));
    assert_eq!(out[1].value, toml::Value::String(b"main"));
}

#[test]
fn comments_and_blank() {
    let input = b"# comment\na = 1\n\nb = 2 # trailing\n";
    let mut out = [toml::Entry::placeholder(); 8];
    let n = toml::parse_into(input, &mut out).unwrap();
    assert_eq!(n, 2);
    assert_eq!(out[1].key, b"b");
}

#[test]
fn float_value() {
    let input = b"x = 3.14\ny = -2.5e3\n";
    let mut out = [toml::Entry::placeholder(); 8];
    let n = toml::parse_into(input, &mut out).unwrap();
    assert_eq!(n, 2);
    assert_eq!(out[0].value, toml::Value::Float(b"3.14"));
    assert_eq!(out[1].value, toml::Value::Float(b"-2.5e3"));
}

#[test]
fn errors() {
    assert!(matches!(
        toml::parse_into(b"no equals", &mut [toml::Entry::placeholder(); 8]),
        Err(toml::TomlError::InvalidLine(_))
    ));
    assert!(matches!(
        toml::parse_into(b"a = ", &mut [toml::Entry::placeholder(); 8]),
        Err(toml::TomlError::MissingValue(_))
    ));
}

#[test]
fn toml_string_escapes() {
    let mut out = [toml::Entry::placeholder(); 8];
    assert_eq!(toml::parse_into(b"a = \"abc\n", &mut out), Err(toml::TomlError::UnterminatedString(4)));
    let n = toml::parse_into(b"s = \"a\\\"b\"\n", &mut out);
    assert_eq!(n, Ok(1));
    assert_eq!(out[0].value, toml::Value::String(br#"a\"b"#));
    let n = toml::parse_into(b"s = \"x\\\\\" y\n", &mut out);
    assert_eq!(n, Ok(1));
    assert_eq!(out[0].value, toml::Value::String(br"x\\"));
    assert_eq!(
        toml::parse_into(b"\n  k =  \"a\\\"\n", &mut out),
        Err(toml::TomlError::UnterminatedString(8))
    );
    assert_eq!(toml::parse_into(b"k = \"ends\\", &mut out), Err(toml::TomlError::UnterminatedString(4)));
}

#[test]
fn toml_values_and_int() {
    let mut out = [toml::Entry::placeholder(); 8];
    let n = toml::parse_into(b"w = word\nq = \"open\nt = tru\n", &mut out);
    assert_eq!(n, Err(toml::TomlError::UnterminatedString(13)));
    assert_eq!(out[0].value, toml::Value::String(b"word"));
    let n = toml::parse_into(b"w = word\nt = tru\n", &mut out);
    assert_eq!(n, Err(toml::TomlError::MissingValue(11)));
    assert_eq!(toml::as_int(toml::Value::Integer(b"-42")), Some(-42));
    assert_eq!(toml::as_int(toml::Value::Integer(b"4x")), None);
    assert_eq!(toml::as_int(toml::Value::Boolean(true)), None);
    let mut one = [toml::Entry::placeholder(); 1];
    assert_eq!(toml::parse_into(b"a=1\nb=2", &mut one), Err(toml::TomlError::TooManyEntries));
}

fn text(n: &Node) -> Option<&str> {
    match n {
        Node::String(s) => Some(s.as_str()),
        _ => None,
    }
}

fn member<'a>(n: &'a Node, key: &str) -> Option<&'a Node> {
    match n {
        Node::Object(entries) => entries.iter().find(|(k, _)| k == key).map(|(_, v)| v),
        _ => None,
    }
}

#[test]
fn parse_escapes_explicit() {
    let v = parse_tree(br#""a\tb\nc""#).unwrap();
    assert_eq!(text(&v), Some("a\tb\nc"));
}

#[test]
fn parse_simple() {
    let v = parse_tree(br#"{"a":1,"b":[true,false,null],"c":"hi"}"#).unwrap();
    match member(&v, "a") {
        Some(Node::Number(b)) => assert_eq!(b.as_slice(), b"1"),
        _ => panic!("a is not a number"),
    }
    match member(&v, "b") {
        Some(Node::Array(items)) => {
            assert_eq!(items.len(), 3);
            assert!(matches!(items[0], Node::Bool(true)));
            assert!(matches!(items[1], Node::Bool(false)));
            assert!(matches!(items[2], Node::Null));
        }
        _ => panic!("b is not an array"),
    }
    assert_eq!(member(&v, "c").and_then(text), Some("hi"));
}

#[test]
fn whitespace_then_eof() {
    match parse_tree(b"  123  ") {
        Ok(Node::Number(b)) => assert_eq!(b.as_slice(), b"123"),
        _ => panic!("not a number"),
    }
}

#[test]
fn tree_nested_and_empty() {
    let v = parse_tree(br#"[[], {}, [{"k": [1, -2.5e3]}]]"#).unwrap();
    match v {
        Node::Array(items) => {
            assert_eq!(items.len(), 3);
            assert!(matches!(&items[0], Node::Array(a) if a.is_empty()));
            assert!(matches!(&items[1], Node::Object(o) if o.is_empty()));
            match &items[2] {
                Node::Array(inner) => match member(&inner[0], "k") {
                    Some(Node::Array(nums)) => {
                        assert!(matches!(&nums[0], Node::Number(b) if b.as_slice() == b"1"));
                        assert!(matches!(&nums[1], Node::Number(b) if b.as_slice() == b"-2.5e3"));
                    }
                    _ => panic!("k is not an array"),
                },
                _ => panic!("not an array"),
            }
        }
        _ => panic!("not an array"),
    }
}

#[test]
fn tree_long_escaped_string() {
    let mut src = Vec::new();
    src.push(b'"');
    for _ in 0..40 {
        src.extend_from_slice(b"ab\\\\");
    }
    src.push(b'"');
    let expected: String = "ab\\".repeat(40);
    let v = parse_tree(&src).unwrap();
    assert_eq!(text(&v), Some(expected.as_str()));
}

#[test]
fn tree_errors() {
    assert_eq!(parse_tree(b""), Err(JsonError::UnexpectedEof));
    assert_eq!(parse_tree(b"[1,]"), Err(JsonError::UnexpectedByte(4)));
    assert_eq!(parse_tree(b"[1 2]"), Err(JsonError::UnexpectedByte(4)));
    assert_eq!(parse_tree(b"[}"), Err(JsonError::UnexpectedByte(2)));
    assert_eq!(parse_tree(b"{"), Err(JsonError::UnexpectedByte(1)));
    assert_eq!(parse_tree(b"{1:2}"), Err(JsonError::UnexpectedByte(2)));
    assert_eq!(parse_tree(br#"{"a" 1}"#), Err(JsonError::UnexpectedByte(6)));
    assert_eq!(parse_tree(br#"{"a":1,}"#), Err(JsonError::UnexpectedByte(8)));
    assert_eq!(parse_tree(b"[1"), Err(JsonError::UnexpectedByte(2)));
    assert_eq!(parse_tree(b"1 2"), Err(JsonError::UnexpectedByte(3)));
    assert_eq!(parse_tree(b"99999999999999999999"), Err(JsonError::BadNumber(20)));
    assert_eq!(parse_tree(b"[1.5, 99999999999999999999.0]").map(|_| ()), Ok(()));
    assert_eq!(parse_tree(b"tru"), Err(JsonError::UnexpectedByte(0)));
    assert_eq!(parse_tree(b"\"\\q\""), Err(JsonError::BadEscape(2)));
}

#[test]
fn json_roundtrip() {
    let src = br#"{"name":"tpt","n":42,"ok":true,"list":[1,2,3]}"#;
    let v = parse_tree(src).unwrap();
    let s = to_json_string(&v);
    assert_eq!(s.as_bytes(), &src[..]);
    let v2 = parse_tree(s.as_bytes()).unwrap();
    assert_eq!(v, v2);
}

#[test]
fn json_escape_roundtrip() {
    let v = Node::String(String::from("a\tb\nc"));
    let s = to_json_string(&v);
    assert_eq!(s, "\"a\\tb\\nc\"");
    let v2 = parse_tree(s.as_bytes()).unwrap();
    assert_eq!(v, v2);
}

#[test]
fn json_writer_compacts() {
    let v = parse_tree(b" [ null , { \"k\" : [ ] , \"q\\u0001\" : false } , -0.5 ] ").unwrap();
    assert_eq!(to_json_string(&v), "[null,{\"k\":[],\"q\\u0001\":false},-0.5]");
}

#[test]
fn ini_key_lines_roundtrip() {
    let keys = ["a", "bc", "zzzzzz", "key"];
    let mut src = String::new();
    for k in keys.iter() {
        src.push_str(k);
        src.push_str(" = 1\n");
    }
    let doc = ini::parse(src.as_bytes()).unwrap();
    assert_eq!(doc.entries.len(), keys.len());
    for (i, k) in keys.iter().enumerate() {
        assert_eq!(doc.entries[i].0, None);
        assert_eq!(&doc.entries[i].1, k);
        assert_eq!(doc.entries[i].2, "1");
    }
}

#[test]
fn toml_key_lines_roundtrip() {
    let keys = ["a", "bc", "zzzzzz"];
    let mut src = String::new();
    for k in keys.iter() {
        src.push_str(k);
        src.push_str(" = 1\n");
    }
    let mut out = [toml::Entry::placeholder(); 8];
    let n = toml::parse_into(src.as_bytes(), &mut out).unwrap();
    assert_eq!(n, keys.len());
    for (i, k) in keys.iter().enumerate() {
        assert_eq!(out[i].section, None);
        assert_eq!(out[i].key, k.as_bytes());
        assert_eq!(out[i].value, toml::Value::Integer(b"1"));
    }
}

#[test]
fn json_written_tree_reads_back() {
    let long: String = "tab\there \"q\" back\\slash \u{1} é🦀 ".repeat(5);
    let v = Node::Object(vec![
        (String::from("k\u{1f}"), Node::String(long.clone())),
        (
            String::from("list"),
            Node::Array(vec![
                Node::Number(b"-12.5e3".to_vec()),
                Node::Bool(false),
                Node::Null,
                Node::Array(vec![]),
                Node::Object(vec![]),
            ]),
        ),
        (long, Node::Number(b"0".to_vec())),
    ]);
    let s = to_json_string(&v);
    assert_eq!(parse_tree(s.as_bytes()), Ok(v));
}

#[test]
fn csv_write_read_mixed_fields() {
    let rows: Vec<Vec<&str>> = vec![
        vec!["plain", "with,comma", "say \"hi\"", "two\nlines", "cr\rhere"],
        vec!["Grüße, Welt", "", "\"\""],
        vec![""],
        vec!["日本語", "a\r\nb"],
    ];
    let mut w = Writer::new();
    for row in &rows {
        w.write_record(row);
    }
    let out = w.into_string();
    let recs = read_records(out.as_bytes()).unwrap();
    assert_eq!(recs.len(), rows.len());
    for (rec, orig) in recs.iter().zip(rows.iter()) {
        assert_eq!(&rec.fields, orig);
    }
    let wide: Vec<String> = (0..256).map(|i| format!("f{i}")).collect();
    let wide_refs: Vec<&str> = wide.iter().map(|s| s.as_str()).collect();
    let mut w = Writer::new();
    w.write_record(&wide_refs);
    let recs = read_records(w.into_string().as_bytes()).unwrap();
    assert_eq!(recs[0].fields, wide);
}

#[test]
fn json_chunks_add_up_to_decoded_string() {
    let mut src = String::from("\"");
    let mut expected = String::new();
    for i in 0..60 {
        src.push_str("a\\n\\u00e9\\\"");
        expected.push_str("a\né\"");
        if i % 7 == 0 {
            src.push('ü');
            expected.push('ü');
        }
    }
    src.push('"');
    let mut t = Tokenizer::new(src.as_bytes());
    let mut total = Vec::new();
    let mut calls = 0;
    loop {
        match t.next_token().unwrap() {
            Token::StringChunk { bytes, last } => {
                assert!(bytes.len() <= 64);
                total.extend_from_slice(bytes);
                calls += 1;
                if last {
                    break;
                }
            }
            other => panic!("unexpected token: {other:?}"),
        }
    }
    assert!(calls > 1);
    assert_eq!(total, expected.as_bytes());
    assert_eq!(t.position(), src.len());
    assert_eq!(t.next_token().unwrap(), Token::Eof);
}

#[test]
fn toml_owned_entries() {
    let es = toml::parse_owned(b"[s]\nx = 1\ny = \"z\"\n").unwrap();
    assert_eq!(es.len(), 2);
    assert_eq!(es[0].0.as_deref(), Some("s"));
    assert_eq!(es[1].1, "y");
    assert_eq!(es[1].2, toml::OwnedValue::String("z".to_string()));
    let es = toml::parse_owned(b"a = 42\nb = 1.5\nc = false\nd = 99999999999999999999\n").unwrap();
    assert_eq!(es.len(), 4);
    assert_eq!(es[0].0, None);
    assert_eq!(es[0].2, toml::OwnedValue::Integer(42));
    assert_eq!(es[1].2, toml::OwnedValue::Float(b"1.5".to_vec()));
    assert_eq!(es[2].2, toml::OwnedValue::Boolean(false));
    assert_eq!(es[3].2, toml::OwnedValue::Integer(0));
    assert_eq!(toml::parse_owned(b"a = \"x"), Err(toml::TomlError::UnterminatedString(4)));
}
