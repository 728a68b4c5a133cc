use ptbl_validator::codec::{decode, encode};
use ptbl_validator::{version_info, VersionInfo};

#[test]
fn encode_version_info_exact_form() {
    let v = version_info();
    let e = encode(&v);
    assert_eq!(e, "{\"name\":\"ptbl_validator scaffold\"}");
}

#[test]
fn round_trip_version_info() {
    let v = version_info();
    let e = encode(&v);
    let d = decode(e.as_str()).unwrap();
    assert_eq!(d.name, v.name);
}

#[test]
fn round_trip_empty_name() {
    let v = VersionInfo { name: String::new() };
    let e = encode(&v);
    assert_eq!(e, "{\"name\":\"\"}");
    let d = decode(e.as_str()).unwrap();
    assert_eq!(d.name, "");
}

#[test]
fn round_trip_name_with_quotes_and_backslashes() {
    let v = VersionInfo { name: String::from("a\"b\\c\"\"") };
    let e = encode(&v);
    assert_eq!(e, "{\"name\":\"a\\\"b\\\\c\\\"\\\"\"}");
    let d = decode(e.as_str()).unwrap();
    assert_eq!(d.name, v.name);
}

#[test]
fn round_trip_name_with_unicode() {
    let v = VersionInfo { name: String::from("pt\u{e9}bl \u{1f4dc} scaffold") };
    let e = encode(&v);
    let d = decode(e.as_str()).unwrap();
    assert_eq!(d.name, v.name);
}

#[test]
fn round_trip_name_with_braces_and_colons() {
    let v = VersionInfo { name: String::from("{:}{name}:") };
    let e = encode(&v);
    let d = decode(e.as_str()).unwrap();
    assert_eq!(d.name, v.name);
}

#[test]
fn decode_plain_object() {
    let d = decode("{\"name\":\"hello\"}").unwrap();
    assert_eq!(d.name, "hello");
}

#[test]
fn decode_escaped_quote() {
    let d = decode("{\"name\":\"a\\\"b\"}").unwrap();
    assert_eq!(d.name, "a\"b");
}

#[test]
fn decode_escaped_backslash() {
    let d = decode("{\"name\":\"a\\\\b\"}").unwrap();
    assert_eq!(d.name, "a\\b");
}

#[test]
fn decode_rejects_empty_input() {
    assert!(decode("").is_none());
}

#[test]
fn decode_rejects_wrong_prefix() {
    assert!(decode("{\"nome\":\"x\"}").is_none());
}

#[test]
fn decode_rejects_truncated_input() {
    assert!(decode("{\"name\":\"abc").is_none());
    assert!(decode("{\"name\":\"abc\"").is_none());
    assert!(decode("{\"name\":\"").is_none());
}

#[test]
fn decode_rejects_trailing_garbage() {
    assert!(decode("{\"name\":\"abc\"} ").is_none());
    assert!(decode("{\"name\":\"abc\"}}").is_none());
}

#[test]
fn decode_rejects_bad_escape() {
    assert!(decode("{\"name\":\"a\\nb\"}").is_none());
    assert!(decode("{\"name\":\"a\\\"}").is_none());
}

#[test]
fn decode_rejects_missing_closing_brace() {
    assert!(decode("{\"name\":\"abc\"]").is_none());
}
