use url::charset::EncodingOverride;
use url::form_urlencoded::{parse, parse_with_encoding, serialize, serialize_owned,
    serialize_with_encoding};

#[test]
fn test_form_urlencoded() {
    let pairs = [
        ("foo".to_string(), "\u{e9}&".to_string()),
        ("bar".to_string(), "".to_string()),
        ("foo".to_string(), "#".to_string()),
    ];
    let encoded = serialize_owned(&pairs);
    assert_eq!(&encoded[..], "foo=%C3%A9%26&bar=&foo=%23");
    assert_eq!(parse(encoded.as_bytes()), pairs.to_vec());
}

#[test]
fn parse_missing_equals_gives_empty_value() {
    let pairs = parse(b"a=b&c&=d&");
    let expected = vec![
        ("a".to_string(), "b".to_string()),
        ("c".to_string(), "".to_string()),
        ("".to_string(), "d".to_string()),
    ];
    assert_eq!(pairs, expected);
}

#[test]
fn parse_plus_is_space() {
    let pairs = parse(b"a+b=c+d%2B");
    assert_eq!(pairs, vec![("a b".to_string(), "c d+".to_string())]);
}

#[test]
fn parse_invalid_utf8_uses_replacement() {
    let pairs = parse(b"a=%80");
    assert_eq!(pairs, vec![("a".to_string(), "\u{fffd}".to_string())]);
}

#[test]
fn serialize_form_encode_set() {
    let s = serialize(&[("a b", "c*-_.~")]);
    assert_eq!(s, "a+b=c*-_.%7E");
}

#[test]
fn serialize_empty_pairs() {
    let s = serialize(&[]);
    assert_eq!(s, "");
}

#[test]
fn charset_field_picks_encoding() {
    let pairs = parse_with_encoding(b"_charset_=windows-1252&a=%E9", None, true).unwrap();
    assert_eq!(
        pairs,
        vec![
            ("_charset_".to_string(), "windows-1252".to_string()),
            ("a".to_string(), "\u{e9}".to_string()),
        ]
    );
}

#[test]
fn charset_flag_off_keeps_utf8() {
    let pairs = parse_with_encoding(b"_charset_=windows-1252&a=%E9", None, false).unwrap();
    assert_eq!(pairs[1].1, "\u{fffd}".to_string());
}

#[test]
fn non_utf8_encoding_rejects_raw_non_ascii() {
    let enc = EncodingOverride::lookup(b"windows-1252").unwrap();
    assert_eq!(parse_with_encoding(b"a=\xE9", Some(enc), false), None);
}

#[test]
fn explicit_encoding_decodes_escapes() {
    let enc = EncodingOverride::lookup(b"windows-1252").unwrap();
    let pairs = parse_with_encoding(b"a=%E9", Some(enc), false).unwrap();
    assert_eq!(pairs, vec![("a".to_string(), "\u{e9}".to_string())]);
}

#[test]
fn serialize_with_legacy_encoding() {
    let enc = EncodingOverride::lookup(b"windows-1252").unwrap();
    let s = serialize_with_encoding(&[("a", "\u{e9}")], Some(enc));
    assert_eq!(s, "a=%E9");
}

// The replacement encoding's WHATWG name is not itself a label; keying the
// override by the label that resolved keeps its decoder reachable.
#[test]
fn charset_field_replacement_encoding() {
    let pairs = parse_with_encoding(b"_charset_=csiso2022kr&a=bc", None, true).unwrap();
    assert_eq!(pairs[1], ("\u{fffd}".to_string(), "\u{fffd}\u{fffd}".to_string()));
    let enc = EncodingOverride::lookup(b"csiso2022kr").unwrap();
    assert!(!enc.is_utf8());
}

#[test]
fn lookup_utf8_label_is_utf8() {
    let enc = EncodingOverride::lookup(b"UTF-8").unwrap();
    assert!(enc.is_utf8());
    assert!(EncodingOverride::lookup(b"no-such-encoding").is_none());
}
