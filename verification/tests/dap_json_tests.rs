use neyuki::dap_json::{parse_json, read_message, render_json, write_message, FramingError, Json, ParseError};

#[test]
fn framing_two_messages_back_to_back() {
    let m1 = br#"{"seq":1}"#;
    let m2 = br#"{"seq":2}"#;
    let mut raw = Vec::new();
    raw.extend_from_slice(format!("Content-Length: {}\r\n\r\n", m1.len()).as_bytes());
    raw.extend_from_slice(m1);
    raw.extend_from_slice(format!("Content-Length: {}\r\n\r\n", m2.len()).as_bytes());
    raw.extend_from_slice(m2);
    let mut pos = 0usize;
    let r1 = read_message(&raw, &mut pos).expect("read1").expect("some1");
    let r2 = read_message(&raw, &mut pos).expect("read2").expect("some2");
    assert_eq!(r1, m1);
    assert_eq!(r2, m2);
    assert!(read_message(&raw, &mut pos).expect("eof").is_none());
}

#[test]
fn framing_missing_length_errors() {
    let raw = b"X-Other: 1\r\n\r\n{}";
    let mut pos = 0usize;
    assert!(read_message(&raw.to_vec(), &mut pos).is_err());
}

#[test]
fn write_then_read_gives_the_body_back() {
    let mut out = Vec::new();
    write_message(&mut out, b"{\"event\":\"stopped\"}");
    write_message(&mut out, b"");
    assert!(out.starts_with(b"Content-Length: 19\r\n\r\n{\"event\""));
    let mut pos = 0usize;
    assert_eq!(read_message(&out, &mut pos), Ok(Some(b"{\"event\":\"stopped\"}".to_vec())));
    assert_eq!(read_message(&out, &mut pos), Ok(Some(Vec::new())));
    assert_eq!(pos, out.len());
    assert_eq!(read_message(&out, &mut pos), Ok(None));
}

#[test]
fn write_message_frames_exactly() {
    let mut out = b"prefix".to_vec();
    write_message(&mut out, b"abc");
    assert_eq!(out, b"prefixContent-Length: 3\r\n\r\nabc".to_vec());
}

#[test]
fn header_value_may_be_padded_and_signed() {
    let raw = b"Content-Type: x\nContent-Length:   +2 \r\n\nhi rest";
    let mut pos = 0usize;
    assert_eq!(read_message(raw, &mut pos), Ok(Some(b"hi".to_vec())));
    assert_eq!(pos, raw.len() - 5);
}

#[test]
fn a_bad_length_header_clears_an_earlier_one() {
    let raw = b"Content-Length: 2\r\nContent-Length: two\r\n\r\nhi";
    let mut pos = 0usize;
    assert_eq!(read_message(raw, &mut pos), Err(FramingError::MissingContentLength));
}

#[test]
fn short_body_is_unexpected_eof() {
    let raw = b"Content-Length: 10\r\n\r\nshort";
    let mut pos = 0usize;
    assert_eq!(read_message(raw, &mut pos), Err(FramingError::UnexpectedEof));
    assert_eq!(pos, raw.len());
    assert_eq!(FramingError::UnexpectedEof.message(), "failed to fill whole buffer");
}

#[test]
fn invalid_utf8_header_is_an_error() {
    let raw = b"Content-Length: 1\xff\r\n\r\nx";
    let mut pos = 0usize;
    assert_eq!(read_message(raw, &mut pos), Err(FramingError::InvalidUtf8));
    assert_eq!(FramingError::InvalidUtf8.message(), "stream did not contain valid UTF-8");
}

#[test]
fn input_ending_inside_headers_is_cut_short() {
    let raw = b"Content-Length: 2\r\n";
    let mut pos = 0usize;
    assert_eq!(read_message(raw, &mut pos), Err(FramingError::UnexpectedEof));
    assert_eq!(pos, raw.len());
    let empty = b"";
    let mut pos = 0usize;
    assert_eq!(read_message(empty, &mut pos), Ok(None));
}

#[test]
fn overflowing_length_is_missing() {
    let raw = b"Content-Length: 99999999999999999999999\r\n\r\n";
    let mut pos = 0usize;
    assert_eq!(read_message(raw, &mut pos), Err(FramingError::MissingContentLength));
    assert_eq!(FramingError::MissingContentLength.message(), "missing Content-Length");
}

#[test]
fn parse_error_message() {
    let e = ParseError("unexpected end".to_string());
    assert_eq!(e.message(), "json parse error: unexpected end");
}

fn rt(val: &Json) {
    let s = render_json(val);
    let back = parse_json(s.as_bytes()).expect("roundtrip");
    assert_eq!(&back, val);
}

fn num(t: &str) -> Json {
    Json::Num(t.to_string())
}

#[test]
fn json_roundtrip_nested() {
    let v = Json::Obj(vec![
        ("seq".to_string(), num("3")),
        ("type".to_string(), Json::Str("request".to_string())),
        (
            "arguments".to_string(),
            Json::Obj(vec![
                ("threadId".to_string(), num("1")),
                ("path".to_string(), Json::Str("a\"b\\c\né✓".to_string())),
                ("list".to_string(), Json::Arr(vec![Json::Null, Json::Bool(true)])),
            ]),
        ),
    ]);
    rt(&v);
    // Integer-valued numbers render without a decimal point.
    assert!(render_json(&num("3")).contains('3'));
}

#[test]
fn json_surrogates_and_escapes() {
    // U+1F600 via surrogate pair; é direct; classic escapes.
    let v = parse_json("\"\\uD83D\\uDE00é\\n\\t\\\"\\\\\"".as_bytes()).expect("parse");
    assert_eq!(v, Json::Str("\u{1F600}é\n\t\"\\".to_string()));
    rt(&v);
}

#[test]
fn json_accepts_whitespace() {
    // Real clients (and Python's json.dumps) emit spaces after separators.
    let v = parse_json("{ \"seq\" : 1 , \"args\" : { \"a\" : [1 , 2] } , \"t\" : true }".as_bytes())
        .expect("spaced json");
    assert_eq!(v.get("seq"), Some(&num("1")), "spaced object parses");
    rt(&v);
}

#[test]
fn json_rejects_garbage() {
    for bad in [
        "",
        "{",
        "{\"a\":}",
        "[1,]",
        "\"unterminated",
        "nul",
        "01a",
        "{\"a\" 1}",
        "[1 2]",
        "\"bad \\x escape\"",
        "\"lone \\uD83D end\"",
    ] {
        assert!(parse_json(bad.as_bytes()).is_err(), "input: {}", bad);
    }
}

fn parse_err(text: &str) -> String {
    parse_json(text.as_bytes()).unwrap_err().0
}

#[test]
fn json_errors_name_the_byte() {
    assert_eq!(parse_err(""), "unexpected end of input at byte 0");
    assert_eq!(parse_err("nul"), "invalid literal at byte 0");
    assert_eq!(parse_err("01a"), "trailing bytes at byte 2");
    assert_eq!(parse_err("[1 2]"), "expected ',' or ']' at byte 3");
    assert_eq!(parse_err("[1,]"), "unexpected byte 0x5d");
    assert_eq!(parse_err("{\"a\" 1}"), "expected ':' at byte 6");
    assert_eq!(parse_err("\"bad \\x escape\""), "bad escape at byte 7");
    assert_eq!(parse_err("\"lone \\uD83D end\""), "lone high surrogate at byte 14");
    assert_eq!(parse_err("\"\\uDC00\""), "lone low surrogate at byte 7");
    assert_eq!(parse_err("\"tab\there\""), "unescaped control character at byte 5");
    assert_eq!(parse_err("\"abc"), "unterminated string at byte 4");
    assert_eq!(parse_err("-"), "bad number at byte 1");
    assert_eq!(parse_err("1e"), "bad exponent at byte 2");
    assert_eq!(parse_err("{\"a\":1"), "unterminated object at byte 6");
    assert_eq!(parse_err("{1:2}"), "expected string key at byte 1");
}

#[test]
fn invalid_utf8_inside_a_string_is_an_error() {
    assert_eq!(parse_json(&[b'"', 0xC3, b'"']).unwrap_err().0, "invalid UTF-8");
    assert_eq!(parse_json(&[b'"', 0xC3, 0xA9, b'"']), Ok(Json::Str("é".to_string())));
}

#[test]
fn numbers_keep_their_text() {
    assert_eq!(parse_json(b" -12.5e+3 "), Ok(num("-12.5e+3")));
    assert_eq!(parse_json(b"[1.,-.5,0E1]"), Ok(Json::Arr(vec![num("1."), num("-.5"), num("0E1")])));
    assert_eq!(parse_err(".5"), "unexpected byte 0x2e");
    assert_eq!(render_json(&Json::Arr(vec![num("-0.25"), Json::Bool(false)])), "[-0.25,false]");
}

#[test]
fn control_characters_are_escaped_when_rendered() {
    let v = Json::Obj(vec![("k\u{1}".to_string(), Json::Str("\u{8}\u{c}\r\u{1f}".to_string()))]);
    assert_eq!(render_json(&v), "{\"k\\u0001\":\"\\b\\f\\r\\u001f\"}");
    rt(&v);
}

#[test]
fn member_lookup_takes_the_first_match() {
    let v = parse_json(b"{\"a\":1,\"b\":\"x\",\"a\":2}").expect("object");
    assert_eq!(v.get("a"), Some(&num("1")));
    assert_eq!(v.get("b").and_then(|x| x.as_str()), Some("x"));
    assert_eq!(v.get("c"), None);
    assert_eq!(Json::Null.get("a"), None);
    assert_eq!(num("1").as_str(), None);
}
