use serde_canonical::canonical_value::CanonicalValue;
use serde_canonical::ser::{to_string, to_vec, Serializer};

fn enc(v: &CanonicalValue) -> String {
    let s = to_string(v).unwrap();
    assert_eq!(s.as_bytes(), to_vec(v).unwrap().as_slice());
    s
}

fn assert_encode(v: &CanonicalValue, expected: &str) {
    assert_eq!(enc(v), expected);
}

fn done(s: Serializer) -> String {
    String::from_utf8(s.into_bytes()).unwrap()
}

fn text(s: &str) -> CanonicalValue {
    CanonicalValue::Text(s.to_string())
}

fn arr(els: Vec<CanonicalValue>) -> CanonicalValue {
    CanonicalValue::Array(els)
}

fn ints(els: &[i64]) -> CanonicalValue {
    CanonicalValue::Array(els.iter().map(|&i| CanonicalValue::Int(i)).collect())
}

fn obj(entries: Vec<(&str, CanonicalValue)>) -> CanonicalValue {
    CanonicalValue::Object(entries.into_iter().map(|(k, v)| (k.to_string(), v)).collect())
}

#[test]
fn write_list() {
    assert_encode(&arr(vec![]), "[]");
    assert_encode(&arr(vec![CanonicalValue::Bool(true)]), "[true]");
    assert_encode(
        &arr(vec![CanonicalValue::Bool(true), CanonicalValue::Bool(false)]),
        "[true,false]",
    );

    assert_encode(&arr(vec![ints(&[]), ints(&[]), ints(&[])]), "[[],[],[]]");
    assert_encode(&arr(vec![ints(&[1, 2, 3]), ints(&[]), ints(&[])]), "[[1,2,3],[],[]]");
    assert_encode(&arr(vec![ints(&[]), ints(&[1, 2, 3]), ints(&[])]), "[[],[1,2,3],[]]");
    assert_encode(&arr(vec![ints(&[]), ints(&[]), ints(&[1, 2, 3])]), "[[],[],[1,2,3]]");

    let long_test_list = arr(vec![CanonicalValue::Bool(false), CanonicalValue::Null]);
    assert_encode(&long_test_list, "[false,null]");
}

#[test]
fn write_tuple() {
    assert_encode(&arr(vec![CanonicalValue::Int(5)]), "[5]");
    assert_encode(
        &arr(vec![CanonicalValue::Int(5), arr(vec![CanonicalValue::Int(6), text("abc")])]),
        "[5,[6,\"abc\"]]",
    );
}

#[test]
fn write_enum() {
    // Animal::Dog, a unit variant: its tag name alone.
    let mut s = Serializer::new();
    s.serialize_unit_variant("Dog");
    assert_eq!(done(s), "\"Dog\"");

    // Animal::Frog(name, tags), a tuple variant: {"Frog":[name,tags]}.
    for (tags, expected) in [
        (vec![], "{\"Frog\":[\"Henry\",[]]}"),
        (vec![349], "{\"Frog\":[\"Henry\",[349]]}"),
        (vec![349, 102], "{\"Frog\":[\"Henry\",[349,102]]}"),
    ] {
        let mut s = Serializer::new();
        let mut frame = s.serialize_tuple_variant("Frog", 2);
        frame.serialize_element(&mut s, &text("Henry")).unwrap();
        frame.serialize_element(&mut s, &ints(&tags)).unwrap();
        frame.end_variant(&mut s);
        assert_eq!(done(s), expected);
    }

    // Animal::Cat { age, name }, a record variant: {"Cat":{...}}.
    let mut s = Serializer::new();
    let mut frame = s.serialize_struct_variant("Cat", 2);
    frame.serialize_field(&mut s, "age", &CanonicalValue::UInt(5)).unwrap();
    frame.serialize_field(&mut s, "name", &text("Kate")).unwrap();
    frame.end_variant(&mut s);
    assert_eq!(done(s), "{\"Cat\":{\"age\":5,\"name\":\"Kate\"}}");

    // Animal::AntHive(names), a newtype variant: {"AntHive":names}.
    let mut s = Serializer::new();
    s.serialize_newtype_variant("AntHive", &arr(vec![text("Bob"), text("Stuart")]))
        .unwrap();
    assert_eq!(done(s), "{\"AntHive\":[\"Bob\",\"Stuart\"]}");
}

#[test]
fn write_option() {
    let mut s = Serializer::new();
    s.serialize_none();
    assert_eq!(done(s), "null");

    let mut s = Serializer::new();
    s.serialize_some(&text("jodhpurs")).unwrap();
    assert_eq!(done(s), "\"jodhpurs\"");

    let mut s = Serializer::new();
    s.serialize_some(&arr(vec![text("foo"), text("bar")])).unwrap();
    assert_eq!(done(s), "[\"foo\",\"bar\"]");
}

#[test]
fn write_object() {
    assert_encode(&obj(vec![]), "{}");
    assert_encode(&obj(vec![("a", CanonicalValue::Bool(true))]), "{\"a\":true}");
    assert_encode(
        &obj(vec![("a", CanonicalValue::Bool(true)), ("b", CanonicalValue::Bool(false))]),
        "{\"a\":true,\"b\":false}",
    );

    assert_encode(
        &obj(vec![("a", obj(vec![])), ("b", obj(vec![])), ("c", obj(vec![]))]),
        "{\"a\":{},\"b\":{},\"c\":{}}",
    );

    let inner = || {
        obj(vec![
            ("a", obj(vec![("a", ints(&[1, 2, 3]))])),
            ("b", obj(vec![])),
            ("c", obj(vec![])),
        ])
    };
    assert_encode(
        &obj(vec![("a", inner()), ("b", obj(vec![])), ("c", obj(vec![]))]),
        "{\"a\":{\"a\":{\"a\":[1,2,3]},\"b\":{},\"c\":{}},\"b\":{},\"c\":{}}",
    );
    assert_encode(
        &obj(vec![("a", obj(vec![])), ("b", inner()), ("c", obj(vec![]))]),
        "{\"a\":{},\"b\":{\"a\":{\"a\":[1,2,3]},\"b\":{},\"c\":{}},\"c\":{}}",
    );
    assert_encode(
        &obj(vec![("a", obj(vec![])), ("b", obj(vec![])), ("c", inner())]),
        "{\"a\":{},\"b\":{},\"c\":{\"a\":{\"a\":[1,2,3]},\"b\":{},\"c\":{}}}",
    );

    let complex_obj = obj(vec![(
        "b",
        arr(vec![obj(vec![("c", text("\x0c\x1f\r"))]), obj(vec![("d", text(""))])]),
    )]);
    assert_encode(
        &complex_obj,
        "{\
         \"b\":[\
         {\"c\":\"\x0c\x1f\r\"},\
         {\"d\":\"\"}\
         ]\
         }",
    );
}

#[test]
fn write_map() {
    let map = obj(vec![("a", obj(vec![])), ("b", obj(vec![]))]);
    assert_encode(&map, "{\"a\":{},\"b\":{}}");
}

#[test]
fn order_btree_map() {
    // An ordered map hands its entries over already sorted, "a" before "z"
    // whatever the insertion order was.
    let map = obj(vec![("a", obj(vec![])), ("z", obj(vec![]))]);
    assert_encode(&map, r#"{"a":{},"z":{}}"#);
}

#[test]
fn order_hash_map() {
    // A hash map's entries are sorted by the adapter before they reach the
    // encoder; the encoder itself sees them ascending.
    let map = obj(vec![("a", obj(vec![])), ("b", obj(vec![]))]);
    assert_encode(&map, r#"{"a":{},"b":{}}"#);
}

#[test]
fn write_newtype_struct() {
    // A newtype struct is transparent: only its inner value appears.
    let inner = obj(vec![("inner", CanonicalValue::Int(123))]);
    let mut s = Serializer::new();
    s.serialize_newtype_struct(&inner).unwrap();
    assert_eq!(done(s), r#"{"inner":123}"#);

    let outer = obj(vec![("outer", obj(vec![("inner", CanonicalValue::Int(123))]))]);
    assert_encode(&outer, r#"{"outer":{"inner":123}}"#);
}

#[test]
fn write_struct() {
    // struct Test { int: u32, seq: Vec<&str> } as the encoder sees it.
    let mut s = Serializer::new();
    let mut frame = s.serialize_struct(2);
    frame.serialize_field(&mut s, "int", &CanonicalValue::UInt(1)).unwrap();
    frame
        .serialize_field(&mut s, "seq", &arr(vec![text("a"), text("b")]))
        .unwrap();
    frame.end(&mut s);
    assert_eq!(done(s), r#"{"int":1,"seq":["a","b"]}"#);
}

#[test]
fn write_struct_ordered() {
    // Fields declared b-then-a arrive at the encoder sorted by the adapter;
    // the output keeps ascending key order.
    let test = obj(vec![("a", CanonicalValue::UInt(1)), ("b", CanonicalValue::UInt(2))]);
    assert_encode(&test, r#"{"a":1,"b":2}"#);
}

#[test]
fn write_enum_derive() {
    // enum E { Unit, Newtype(u32), Tuple(u32, u32), Struct { a: u32 } }
    let mut s = Serializer::new();
    s.serialize_unit_variant("Unit");
    assert_eq!(done(s), r#""Unit""#);

    let mut s = Serializer::new();
    s.serialize_newtype_variant("Newtype", &CanonicalValue::UInt(1)).unwrap();
    assert_eq!(done(s), r#"{"Newtype":1}"#);

    let mut s = Serializer::new();
    let mut frame = s.serialize_tuple_variant("Tuple", 2);
    frame.serialize_element(&mut s, &CanonicalValue::UInt(1)).unwrap();
    frame.serialize_element(&mut s, &CanonicalValue::UInt(2)).unwrap();
    frame.end_variant(&mut s);
    assert_eq!(done(s), r#"{"Tuple":[1,2]}"#);

    let mut s = Serializer::new();
    let mut frame = s.serialize_struct_variant("Struct", 1);
    frame.serialize_field(&mut s, "a", &CanonicalValue::UInt(1)).unwrap();
    frame.end_variant(&mut s);
    assert_eq!(done(s), r#"{"Struct":{"a":1}}"#);
}
