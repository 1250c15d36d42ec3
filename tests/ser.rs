use deseresp::de::StringKind;
use deseresp::ser::{from_write, NewtypeMode, Serializer};
use deseresp::types::{borrowed, owned, OkResponse, WithAttribute, WITH_ATTRIBUTE_TOKEN};
use deseresp::Error;

fn new_serializer() -> Serializer {
    from_write(Vec::new())
}

fn s(b: &[u8]) -> &str {
    std::str::from_utf8(b).unwrap()
}

/// Writes a finite or infinite double the way an encoder of floats does.
fn write_f64(se: &mut Serializer, v: f64) -> Result<(), Error> {
    if v.is_nan() {
        return Err(Error::nan());
    }
    if v.is_infinite() {
        return se.write_infinity(v.is_sign_negative());
    }
    se.write_double(&format!("{}", v))
}

#[test]
fn test_serialize_bool() {
    let mut se = new_serializer();
    se.write_bool(true).unwrap();
    assert_eq!(se.into_inner(), b"#t\r\n");

    let mut se = new_serializer();
    se.write_bool(false).unwrap();
    assert_eq!(se.into_inner(), b"#f\r\n");
}

#[test]
fn test_serialize_number() {
    let mut se = new_serializer();
    se.write_i64(12345).unwrap();
    assert_eq!(se.into_inner(), b":12345\r\n");

    let mut se = new_serializer();
    se.write_i64(-12345).unwrap();
    assert_eq!(se.into_inner(), b":-12345\r\n");
}

#[test]
fn test_serialize_double() {
    let mut se = new_serializer();
    write_f64(&mut se, 12345.1).unwrap();
    assert_eq!(se.into_inner(), b",12345.1\r\n");

    let mut se = new_serializer();
    write_f64(&mut se, f64::NEG_INFINITY).unwrap();
    assert_eq!(se.into_inner(), b",-inf\r\n");

    let mut se = new_serializer();
    write_f64(&mut se, f64::INFINITY).unwrap();
    assert_eq!(se.into_inner(), b",inf\r\n");
}

#[test]
fn test_serialize_char() {
    let mut se = new_serializer();
    se.write_simple_string_char('e').unwrap();
    assert_eq!(se.into_inner(), b"+e\r\n");
}

#[test]
fn multibyte_char_is_utf8_encoded() {
    let mut se = new_serializer();
    se.write_simple_string_char('é').unwrap();
    assert_eq!(se.into_inner(), b"+\xc3\xa9\r\n");
    for c in ['a', '€', '\u{1F600}', '\u{7FF}', '\u{FFFF}', '\u{10FFFF}'] {
        let mut se = new_serializer();
        se.write_simple_string_char(c).unwrap();
        assert_eq!(se.into_inner(), format!("+{}\r\n", c).into_bytes());
    }
}

#[test]
fn test_serialize_str() {
    let mut se = new_serializer();
    se.write_simple_string("hello world").unwrap();
    assert_eq!(se.into_inner(), b"+hello world\r\n");
}

#[test]
fn test_serialize_option() {
    let mut se = new_serializer();
    se.write_null().unwrap();
    assert_eq!(se.into_inner(), b"_\r\n");

    let mut se = new_serializer();
    se.write_simple_string("hello world").unwrap();
    assert_eq!(se.into_inner(), b"+hello world\r\n");
}

#[test]
fn test_serialize_unit() {
    let mut se = new_serializer();
    se.write_null().unwrap();
    assert_eq!(se.into_inner(), b"_\r\n");
}

#[test]
fn test_serialize_struct() {
    // newtype struct around 123
    let mut se = new_serializer();
    se.write_u64(123).unwrap();
    assert_eq!(se.into_inner(), b":123\r\n");

    // struct { a: 123, b: "abc" }
    let mut se = new_serializer();
    let mut st = se.serialize_struct(2).unwrap();
    st.begin_element().unwrap();
    se.write_simple_string("a").unwrap();
    se.write_u64(123).unwrap();
    st.begin_element().unwrap();
    se.write_simple_string("b").unwrap();
    se.write_simple_string("abc").unwrap();
    st.end(&mut se).unwrap();
    assert_eq!(se.into_inner(), b"%2\r\n+a\r\n:123\r\n+b\r\n+abc\r\n");

    // unit struct
    let mut se = new_serializer();
    se.write_null().unwrap();
    assert_eq!(se.into_inner(), b"_\r\n");

    // tuple struct (123, "abcd")
    let mut se = new_serializer();
    let mut st = se.serialize_tuple_struct("Tuple", 2).unwrap();
    st.begin_element().unwrap();
    se.write_u64(123).unwrap();
    st.begin_element().unwrap();
    se.write_simple_string("abcd").unwrap();
    st.end(&mut se).unwrap();
    assert_eq!(se.into_inner(), b"*2\r\n:123\r\n+abcd\r\n");
}

#[test]
fn test_serialize_map() {
    let mut se = new_serializer();
    let mut m = se.serialize_map(Some(2)).unwrap();
    for (k, v) in [("a", "b"), ("c", "d")] {
        m.begin_element().unwrap();
        se.write_simple_string(k).unwrap();
        se.write_simple_string(v).unwrap();
    }
    m.end(&mut se).unwrap();
    assert_eq!(se.into_inner(), b"%2\r\n+a\r\n+b\r\n+c\r\n+d\r\n");
}

#[test]
fn test_serialize_seq() {
    let mut se = new_serializer();
    let mut q = se.serialize_seq(Some(4)).unwrap();
    for v in ["a", "b", "c", "d"] {
        q.begin_element().unwrap();
        se.write_simple_string(v).unwrap();
    }
    q.end(&mut se).unwrap();
    assert_eq!(se.into_inner(), b"*4\r\n+a\r\n+b\r\n+c\r\n+d\r\n");

    let mut se = new_serializer();
    let mut q = se.serialize_tuple(4).unwrap();
    q.begin_element().unwrap();
    se.write_i64(1).unwrap();
    q.begin_element().unwrap();
    se.write_i64(3).unwrap();
    q.begin_element().unwrap();
    se.write_simple_string("abc").unwrap();
    q.begin_element().unwrap();
    write_f64(&mut se, 10.5).unwrap();
    q.end(&mut se).unwrap();
    assert_eq!(se.into_inner(), b"*4\r\n:1\r\n:3\r\n+abc\r\n,10.5\r\n");
}

#[test]
fn test_serialize_enum() {
    // Enum::Struct { a: 123, b: "abc" }
    let mut se = new_serializer();
    let mut st = se.serialize_struct_variant("Struct", 2).unwrap();
    st.begin_element().unwrap();
    se.write_simple_string("a").unwrap();
    se.write_u64(123).unwrap();
    st.begin_element().unwrap();
    se.write_simple_string("b").unwrap();
    se.write_simple_string("abc").unwrap();
    st.end(&mut se).unwrap();
    assert_eq!(se.into_inner(), b"%1\r\n+Struct\r\n%2\r\n+a\r\n:123\r\n+b\r\n+abc\r\n");

    // Enum::Tuple(123, "abcd")
    let mut se = new_serializer();
    let mut st = se.serialize_tuple_variant("Tuple", 2).unwrap();
    st.begin_element().unwrap();
    se.write_u64(123).unwrap();
    st.begin_element().unwrap();
    se.write_simple_string("abcd").unwrap();
    st.end(&mut se).unwrap();
    assert_eq!(se.into_inner(), b"%1\r\n+Tuple\r\n*2\r\n:123\r\n+abcd\r\n");

    // Enum::Unit
    let mut se = new_serializer();
    se.serialize_unit_variant("Unit").unwrap();
    assert_eq!(se.into_inner(), b"%1\r\n+Unit\r\n_\r\n");
}

#[test]
fn serialize_borrowed_types() {
    let mut se = new_serializer();
    borrowed::SimpleString::from("hello").serialize(&mut se).unwrap();
    assert_eq!(se.into_inner(), b"+hello\r\n");

    let mut se = new_serializer();
    borrowed::SimpleError::from("hello").serialize(&mut se).unwrap();
    assert_eq!(se.into_inner(), b"-hello\r\n");

    let mut se = new_serializer();
    borrowed::BlobString::from("hello").serialize(&mut se).unwrap();
    assert_eq!(se.into_inner(), b"$5\r\nhello\r\n");

    let mut se = new_serializer();
    borrowed::BlobError::from("hello").serialize(&mut se).unwrap();
    assert_eq!(se.into_inner(), b"!5\r\nhello\r\n");
}

#[test]
fn serialize_owned_types() {
    let mut se = new_serializer();
    owned::SimpleString::new("hello").serialize(&mut se).unwrap();
    assert_eq!(se.into_inner(), b"+hello\r\n");

    let mut se = new_serializer();
    owned::SimpleError::from(String::from("hello")).serialize(&mut se).unwrap();
    assert_eq!(se.into_inner(), b"-hello\r\n");

    let mut se = new_serializer();
    owned::BlobString::new("hello").serialize(&mut se).unwrap();
    assert_eq!(se.into_inner(), b"$5\r\nhello\r\n");

    let mut se = new_serializer();
    owned::BlobError::new("hello").serialize(&mut se).unwrap();
    assert_eq!(se.into_inner(), b"!5\r\nhello\r\n");
}

#[test]
fn serialize_push_type() {
    // Push(("a", "b", 100))
    let mut se = new_serializer();
    let mut p = se.serialize_push(Some(3)).unwrap();
    p.begin_element().unwrap();
    se.write_simple_string("a").unwrap();
    p.begin_element().unwrap();
    se.write_simple_string("b").unwrap();
    p.begin_element().unwrap();
    se.write_i64(100).unwrap();
    p.end(&mut se).unwrap();
    assert_eq!(se.into_inner(), b">3\r\n+a\r\n+b\r\n:100\r\n");

    // Push(ComplexData { push_type, channel, value }): fields go without names
    let mut se = new_serializer();
    let mut p = se.serialize_push(Some(3)).unwrap();
    assert!(!p.with_key());
    for v in ["message", "channel", "value"] {
        p.begin_element().unwrap();
        se.write_simple_string(v).unwrap();
    }
    p.end(&mut se).unwrap();
    assert_eq!(se.into_inner(), b">3\r\n+message\r\n+channel\r\n+value\r\n");

    let mut se = new_serializer();
    assert!(matches!(
        se.serialize_push(None),
        Err(Error::UnexpectedValue("unknown len seq"))
    ));
}

#[test]
fn test_serialize_attribute() {
    // WithAttribute::new(Test { a: 200 }, 300)
    let value = WithAttribute::new(200u64, 300u64);
    let (a, v) = value.into_inner();
    let mut se = new_serializer();
    let mut pair = se.serialize_tuple_struct(WITH_ATTRIBUTE_TOKEN, 2).unwrap();
    assert!(pair.begin_element().unwrap());
    let mut attr = se.serialize_attribute(1).unwrap();
    attr.begin_element().unwrap();
    se.write_simple_string("a").unwrap();
    se.write_u64(a).unwrap();
    attr.end(&mut se).unwrap();
    assert!(!pair.begin_element().unwrap());
    se.write_u64(v).unwrap();
    pair.end(&mut se).unwrap();
    assert_eq!(s(&se.into_inner()), s(b"|1\r\n+a\r\n:200\r\n:300\r\n"));
}

#[test]
fn test_serialize_nested_attribute() {
    let mut se = new_serializer();
    let mut outer = se.serialize_tuple_struct(WITH_ATTRIBUTE_TOKEN, 2).unwrap();
    assert!(outer.begin_element().unwrap());
    let mut attr = se.serialize_attribute(1).unwrap();
    attr.begin_element().unwrap();
    se.write_simple_string("a").unwrap();
    let mut inner = se.serialize_tuple_struct(WITH_ATTRIBUTE_TOKEN, 2).unwrap();
    assert!(inner.begin_element().unwrap());
    let mut inner_attr = se.serialize_attribute(1).unwrap();
    inner_attr.begin_element().unwrap();
    se.write_simple_string("b").unwrap();
    se.write_simple_string("c").unwrap();
    inner_attr.end(&mut se).unwrap();
    assert!(!inner.begin_element().unwrap());
    se.write_u64(200).unwrap();
    inner.end(&mut se).unwrap();
    attr.end(&mut se).unwrap();
    assert!(!outer.begin_element().unwrap());
    se.write_u64(300).unwrap();
    outer.end(&mut se).unwrap();
    assert_eq!(s(&se.into_inner()), s(b"|1\r\n+a\r\n|1\r\n+b\r\n+c\r\n:200\r\n:300\r\n"));
}

#[test]
fn nan_is_refused() {
    let mut se = new_serializer();
    assert!(matches!(write_f64(&mut se, f64::NAN), Err(Error::NaN)));
    assert!(se.into_inner().is_empty());
}

#[test]
fn too_many_children_are_refused() {
    let mut se = new_serializer();
    let mut q = se.serialize_seq(Some(1)).unwrap();
    q.begin_element().unwrap();
    se.write_i64(1).unwrap();
    assert!(matches!(q.begin_element(), Err(Error::UnexpectedValue("element"))));
}

#[test]
fn too_few_children_are_refused() {
    let mut se = new_serializer();
    let mut q = se.serialize_seq(Some(2)).unwrap();
    q.begin_element().unwrap();
    se.write_i64(1).unwrap();
    assert!(matches!(q.end(&mut se), Err(Error::ExpectedValue("element"))));
}

#[test]
fn unknown_length_ends_with_marker() {
    let mut se = new_serializer();
    let mut q = se.serialize_seq(None).unwrap();
    q.begin_element().unwrap();
    se.write_i64(1).unwrap();
    q.end(&mut se).unwrap();
    assert_eq!(se.into_inner(), b"*?\r\n:1\r\n.\r\n");

    let mut se = new_serializer();
    let m = se.serialize_map(None).unwrap();
    m.end(&mut se).unwrap();
    assert_eq!(se.into_inner(), b"%?\r\n.\r\n");
}

#[test]
fn bytes_serialize_as_blob_string() {
    let mut se = new_serializer();
    se.serialize_bytes(b"hey").unwrap();
    assert_eq!(se.into_inner(), b"$3\r\nhey\r\n");

    let mut se = new_serializer();
    se.serialize_bytes(b"ab\xfe").unwrap();
    assert_eq!(se.into_inner(), b"$3\r\nab\xfe\r\n");
}

#[test]
fn newtype_modes() {
    assert_eq!(
        Serializer::serialize_newtype_struct("$BulkString"),
        NewtypeMode::Restricted(StringKind::BlobString)
    );
    assert_eq!(Serializer::serialize_newtype_struct("$Push"), NewtypeMode::Push);
    assert_eq!(Serializer::serialize_newtype_struct("Meters"), NewtypeMode::Transparent);
}

#[test]
fn ok_response_serializes() {
    let mut se = new_serializer();
    OkResponse.serialize(&mut se).unwrap();
    assert_eq!(se.into_inner(), b"+OK\r\n");
}

#[test]
fn integer_extremes() {
    let mut se = new_serializer();
    se.write_i64(i64::MIN).unwrap();
    assert_eq!(se.into_inner(), b":-9223372036854775808\r\n");
    let mut se = new_serializer();
    se.write_u64(u64::MAX).unwrap();
    assert_eq!(se.into_inner(), b":18446744073709551615\r\n");
    let mut se = new_serializer();
    se.write_i64(0).unwrap();
    assert_eq!(se.into_inner(), b":0\r\n");
}
