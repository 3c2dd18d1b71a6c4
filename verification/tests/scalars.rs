use serde_canonical::canonical_value::CanonicalValue;
use serde_canonical::error::Error;
use serde_canonical::ser::{to_string, to_vec};

fn enc(v: &CanonicalValue) -> String {
    let s = to_string(v).unwrap();
    assert_eq!(s.as_bytes(), to_vec(v).unwrap().as_slice());
    s
}

fn assert_encode(v: &CanonicalValue, expected: &str) {
    assert_eq!(enc(v), expected);
}

fn assert_encode_err(v: &CanonicalValue) {
    match to_vec(v).unwrap_err() {
        Error::NonCanonicalNumber => (),
        _ => panic!("this should error out"),
    }
}

/// The float classification the encoder's `Float` variant stands for: an
/// exact integer value, or nothing.
fn f64_class(v: f64) -> Option<i64> {
    if v.is_nan() || v.is_infinite() {
        return None;
    }
    if v.fract() != 0.0 {
        return None;
    }
    if v != (v as i64) as f64 {
        return None;
    }
    Some(v as i64)
}

fn f32_class(v: f32) -> Option<i64> {
    if v.is_nan() || v.is_infinite() {
        return None;
    }
    if v.fract() != 0.0 {
        return None;
    }
    if v != (v as i64) as f32 {
        return None;
    }
    Some(v as i64)
}

#[test]
fn write_null() {
    assert_encode(&CanonicalValue::Null, "null");
}

#[test]
fn write_bool() {
    assert_encode(&CanonicalValue::Bool(true), "true");
    assert_encode(&CanonicalValue::Bool(false), "false");
}

#[test]
fn write_i8() {
    assert_encode(&CanonicalValue::Int(3i8 as i64), "3");
    assert_encode(&CanonicalValue::Int(i8::MIN as i64), &i8::MIN.to_string());
    assert_encode(&CanonicalValue::Int(i8::MAX as i64), &i8::MAX.to_string());
}

#[test]
fn write_i16() {
    assert_encode(&CanonicalValue::Int(3i16 as i64), "3");
    assert_encode(&CanonicalValue::Int(i16::MIN as i64), &i16::MIN.to_string());
    assert_encode(&CanonicalValue::Int(i16::MAX as i64), &i16::MAX.to_string());
}

#[test]
fn write_i32() {
    assert_encode(&CanonicalValue::Int(3i32 as i64), "3");
    assert_encode(&CanonicalValue::Int(46i32 as i64), "46");
    assert_encode(&CanonicalValue::Int(-1933i32 as i64), "-1933");
    assert_encode(&CanonicalValue::Int(i32::MIN as i64), &i32::MIN.to_string());
    assert_encode(&CanonicalValue::Int(i32::MAX as i64), &i32::MAX.to_string());
}

#[test]
fn write_i64() {
    assert_encode(&CanonicalValue::Int(3), "3");
    assert_encode(&CanonicalValue::Int(-2), "-2");
    assert_encode(&CanonicalValue::Int(-1234), "-1234");
    assert_encode(&CanonicalValue::Int(i64::MIN), &i64::MIN.to_string());
    assert_encode(&CanonicalValue::Int(i64::MAX), &i64::MAX.to_string());
}

#[test]
fn write_u8() {
    assert_encode(&CanonicalValue::UInt(3u8 as u64), "3");
    assert_encode(&CanonicalValue::UInt(46u8 as u64), "46");
    assert_encode(&CanonicalValue::UInt(254u8 as u64), "254");
    assert_encode(&CanonicalValue::UInt(u8::MIN as u64), &u8::MIN.to_string());
    assert_encode(&CanonicalValue::UInt(u8::MAX as u64), &u8::MAX.to_string());
}

#[test]
fn write_u16() {
    assert_encode(&CanonicalValue::UInt(3u16 as u64), "3");
    assert_encode(&CanonicalValue::UInt(46u16 as u64), "46");
    assert_encode(&CanonicalValue::UInt(254u16 as u64), "254");
    assert_encode(&CanonicalValue::UInt(u16::MIN as u64), &u16::MIN.to_string());
    assert_encode(&CanonicalValue::UInt(u16::MAX as u64), &u16::MAX.to_string());
}

#[test]
fn write_u32() {
    assert_encode(&CanonicalValue::UInt(3u32 as u64), "3");
    assert_encode(&CanonicalValue::UInt(46u32 as u64), "46");
    assert_encode(&CanonicalValue::UInt(254u32 as u64), "254");
    assert_encode(&CanonicalValue::UInt(u32::MIN as u64), &u32::MIN.to_string());
    assert_encode(&CanonicalValue::UInt(u32::MAX as u64), &u32::MAX.to_string());
}

#[test]
fn write_u64() {
    assert_encode(&CanonicalValue::UInt(3), "3");
    assert_encode(&CanonicalValue::UInt(46), "46");
    assert_encode(&CanonicalValue::UInt(254), "254");
    assert_encode(&CanonicalValue::UInt(u64::MIN), &u64::MIN.to_string());
    assert_encode(&CanonicalValue::UInt(u64::MAX), &u64::MAX.to_string());
}

#[test]
fn encode_nonfinite_float_yields_err() {
    assert_encode_err(&CanonicalValue::Float(f64_class(f64::NAN)));
    assert_encode_err(&CanonicalValue::Float(f64_class(f64::INFINITY)));
    assert_encode_err(&CanonicalValue::Float(f32_class(f32::NAN)));
    assert_encode_err(&CanonicalValue::Float(f32_class(f32::INFINITY)));
}

#[test]
fn encode_f32_ne_int() {
    assert_encode_err(&CanonicalValue::Float(f32_class(3.1f32)));
    assert_encode_err(&CanonicalValue::Float(f32_class(-1.3f32)));
}

#[test]
fn write_f32() {
    assert_encode(&CanonicalValue::Float(f32_class(3.0f32)), "3");
    assert_encode(&CanonicalValue::Float(f32_class(46.0f32)), "46");
    assert_encode(&CanonicalValue::Float(f32_class(-254.0f32)), "-254");
}

#[test]
fn encode_f64_ne_int() {
    assert_encode_err(&CanonicalValue::Float(f64_class(3.1f64)));
    assert_encode_err(&CanonicalValue::Float(f64_class(-1.3f64)));
}

#[test]
fn write_f64() {
    assert_encode(&CanonicalValue::Float(f64_class(3.0f64)), "3");
    assert_encode(&CanonicalValue::Float(f64_class(46.0f64)), "46");
    assert_encode(&CanonicalValue::Float(f64_class(-254.0f64)), "-254");
    assert_encode(&CanonicalValue::Float(f64_class(1234567f64)), "1234567");
}

#[test]
fn write_string() {
    let tests: &[(&str, &str)] = &[
        ("", "\"\""),
        ("foo", "\"foo\""),
        ("\\", "\"\\\\\""),
        ("\"", "\"\\\"\""),
        ("\n", "\"\n\""),
        ("\r", "\"\r\""),
        ("\t", "\"\t\""),
        ("\u{2603}", "\"\u{2603}\""),
    ];
    for &(input, expected) in tests {
        assert_encode(&CanonicalValue::Text(input.to_string()), expected);
    }
}

#[test]
fn write_bytes() {
    let buf: Vec<CanonicalValue> = vec![];
    assert_encode(&CanonicalValue::Array(buf), "[]");

    let buf = vec![
        CanonicalValue::Int(1),
        CanonicalValue::Int(2),
        CanonicalValue::Int(3),
    ];
    assert_encode(&CanonicalValue::Array(buf), "[1,2,3]");
}
