use serde_canonical::canonical_value::CanonicalValue;
use serde_canonical::error::Error;
use serde_canonical::ser::{to_vec, Serializer};

fn text(s: &str) -> CanonicalValue {
    CanonicalValue::Text(s.to_string())
}

fn obj(entries: Vec<(&str, CanonicalValue)>) -> CanonicalValue {
    CanonicalValue::Object(entries.into_iter().map(|(k, v)| (k.to_string(), v)).collect())
}

fn done(s: Serializer) -> String {
    String::from_utf8(s.into_bytes()).unwrap()
}

#[test]
fn duplicate_key_rejected() {
    let v = obj(vec![("a", CanonicalValue::Null), ("a", CanonicalValue::Null)]);
    assert_eq!(to_vec(&v).unwrap_err(), Error::DuplicateKey);
}

#[test]
fn unordered_key_rejected() {
    let v = obj(vec![("b", CanonicalValue::Null), ("a", CanonicalValue::Null)]);
    assert_eq!(to_vec(&v).unwrap_err(), Error::UnorderedKey);
}

#[test]
fn key_order_resets_per_mapping() {
    // A nested mapping may reuse a key of its parent: ordering is checked
    // among siblings only.
    let v = obj(vec![
        ("a", obj(vec![("a", CanonicalValue::Null)])),
        ("b", obj(vec![("a", CanonicalValue::Null)])),
    ]);
    assert_eq!(
        String::from_utf8(to_vec(&v).unwrap()).unwrap(),
        r#"{"a":{"a":null},"b":{"a":null}}"#
    );
}

#[test]
fn key_must_be_string() {
    let mut s = Serializer::new();
    let mut frame = s.serialize_map(None);
    assert_eq!(
        frame.serialize_key(&mut s, &CanonicalValue::Int(1)).unwrap_err(),
        Error::KeyMustBeString
    );
}

#[test]
fn key_checked_before_value() {
    // The key of an entry is judged before its value: an out-of-order key
    // wins over the bad float it introduces.
    let v = obj(vec![
        ("b", CanonicalValue::Null),
        ("a", CanonicalValue::Float(None)),
    ]);
    assert_eq!(to_vec(&v).unwrap_err(), Error::UnorderedKey);
}

#[test]
fn bad_float_inside_object() {
    let v = obj(vec![("a", CanonicalValue::Float(None))]);
    assert_eq!(to_vec(&v).unwrap_err(), Error::NonCanonicalNumber);
}

#[test]
fn empty_compounds_ignore_length_hints() {
    // An empty sequence or mapping encodes as its empty form whatever the
    // declared length hint was.
    for hint in [None, Some(0), Some(5)] {
        let mut s = Serializer::new();
        let frame = s.serialize_seq(hint);
        frame.end(&mut s);
        assert_eq!(done(s), "[]");

        let mut s = Serializer::new();
        let frame = s.serialize_map(hint);
        frame.end(&mut s);
        assert_eq!(done(s), "{}");
    }
}

#[test]
fn encode_is_deterministic() {
    let v = || {
        obj(vec![
            ("a", CanonicalValue::Array(vec![CanonicalValue::Int(-7), text("x")])),
            ("b", CanonicalValue::Bool(true)),
        ])
    };
    assert_eq!(to_vec(&v()).unwrap(), to_vec(&v()).unwrap());
}

#[test]
fn escape_newline_stays_raw() {
    // The raw newline byte appears literally, not as a two-byte escape.
    let bytes = to_vec(&text("\n")).unwrap();
    assert_eq!(bytes, vec![b'"', b'\n', b'"']);
}

#[test]
fn escape_quote_and_backslash() {
    let bytes = to_vec(&text("\"")).unwrap();
    assert_eq!(bytes, vec![b'"', b'\\', b'"', b'"']);
    let bytes = to_vec(&text("\\")).unwrap();
    assert_eq!(bytes, vec![b'"', b'\\', b'\\', b'"']);
}

#[test]
fn write_char() {
    let mut s = Serializer::new();
    s.serialize_char('a');
    assert_eq!(done(s), "\"a\"");

    let mut s = Serializer::new();
    s.serialize_char('"');
    assert_eq!(done(s), "\"\\\"\"");

    let mut s = Serializer::new();
    s.serialize_char('\u{2603}');
    assert_eq!(done(s), "\"\u{2603}\"");
}

#[test]
fn write_byte_sequence() {
    let mut s = Serializer::new();
    s.serialize_bytes(&[1, 2, 3]);
    assert_eq!(done(s), "[1,2,3]");

    let mut s = Serializer::new();
    s.serialize_bytes(&[]);
    assert_eq!(done(s), "[]");

    let mut s = Serializer::new();
    s.serialize_bytes(&[0, 255]);
    assert_eq!(done(s), "[0,255]");
}

#[test]
fn write_large_u64() {
    let v = CanonicalValue::UInt(u64::MAX);
    assert_eq!(
        String::from_utf8(to_vec(&v).unwrap()).unwrap(),
        "18446744073709551615"
    );
}

#[test]
fn error_message_text() {
    assert_eq!(Error::DuplicateKey.message(), "repeated key");
    assert_eq!(Error::UnorderedKey.message(), "unordered key");
    assert_eq!(Error::KeyMustBeString.message(), "key must be a string");
    assert_eq!(
        Error::NonCanonicalNumber.message(),
        "value not allowed in canonical JSON"
    );
}

#[test]
fn unit_forms_encode_as_null() {
    let mut s = Serializer::new();
    s.serialize_unit();
    assert_eq!(done(s), "null");

    let mut s = Serializer::new();
    s.serialize_unit_struct();
    assert_eq!(done(s), "null");
}
