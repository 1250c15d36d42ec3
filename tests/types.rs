use deseresp::de::Deserializer;
use deseresp::ser::from_write;
use deseresp::types::{
    borrowed, owned, tag_of, AnySkip, AttributeSkip, OkResponse, Push, Tag, WithAttribute,
};
use deseresp::Error;

#[test]
fn deserialize_borrowed_types() {
    let mut d = Deserializer::from_slice(b"+hello world\r\n");
    assert_eq!(borrowed::SimpleString::deserialize(&mut d).unwrap().0, "hello world");
    let mut d = Deserializer::from_slice(b"-ERR hello world\r\n");
    assert_eq!(borrowed::SimpleError::deserialize(&mut d).unwrap().0, "ERR hello world");
    let mut d = Deserializer::from_slice(b"$11\r\nhello world\r\n");
    assert_eq!(borrowed::BlobString::deserialize(&mut d).unwrap().0, "hello world");
    let mut d = Deserializer::from_slice(b"!15\r\nERR hello world\r\n");
    assert_eq!(borrowed::BlobError::deserialize(&mut d).unwrap().0, "ERR hello world");
}

#[test]
fn deserialize_push_type() {
    // Push<(String, String)>
    let mut d = Deserializer::from_slice(b">2\r\n+message\r\n+hello world\r\n");
    let n = d.deserialize_push().unwrap();
    assert_eq!(n, 2);
    let value = Push((
        d.deserialize_str().unwrap().to_string(),
        d.deserialize_str().unwrap().to_string(),
    ));
    let s = value.into_inner();
    assert_eq!(&s.0, "message");
    assert_eq!(&s.1, "hello world");

    // Push<ComplexData> with borrowed fields push_type, channel, value
    let input = b">3\r\n+message\r\n+channel\r\n+value\r\n";
    let mut d = Deserializer::from_slice(input);
    assert_eq!(d.deserialize_push().unwrap(), 3);
    let push_type = d.deserialize_str().unwrap();
    let channel = d.deserialize_str().unwrap();
    let value = d.deserialize_str().unwrap();
    assert_eq!(push_type, "message");
    assert_eq!(channel, "channel");
    assert_eq!(value, "value");
}

#[test]
fn types_test_ignore_attribute() {
    let mut d = Deserializer::from_slice(b"|1\r\n+key-popularity\r\n%2\r\n$1\r\na\r\n,0.1923\r\n$1\r\nb\r\n,0.0012\r\n*2\r\n:2039123\r\n:9543892\r\n");
    assert_eq!(d.deserialize_seq().unwrap(), 2);
    let value = (d.deserialize_u64().unwrap(), d.deserialize_u64().unwrap());
    assert_eq!(value, (2039123, 9543892));

    let mut d = Deserializer::from_slice(b"|1\r\n+hello\r\n+world\r\n#t\r\n");
    assert_eq!(d.deserialize_bool().unwrap(), true);
}

#[test]
fn types_test_deserialize_attribute() {
    let input = b"|1\r\n+key-popularity\r\n%2\r\n$1\r\na\r\n,0.1923\r\n$1\r\nb\r\n,0.0012\r\n*2\r\n:2039123\r\n:9543892\r\n";
    let mut d = Deserializer::from_slice(input);
    let saved = d.begin_with_attribute().unwrap();
    let (n, inner) = d.deserialize_map().unwrap();
    assert_eq!(n, 1);
    assert_eq!(d.deserialize_str().unwrap(), "key-popularity");
    let (m, inner2) = d.deserialize_map().unwrap();
    assert_eq!(m, 2);
    let mut texts = Vec::new();
    for _ in 0..m {
        let key = d.deserialize_str().unwrap();
        let number = d.deserialize_f64().unwrap();
        texts.push((key, number));
    }
    d.set_skip_attribute(inner2);
    d.set_skip_attribute(inner);
    assert_eq!(d.deserialize_seq().unwrap(), 2);
    let pair = (d.deserialize_u64().unwrap(), d.deserialize_u64().unwrap());
    d.set_skip_attribute(saved);
    let with_attr = WithAttribute::new(texts, pair);
    let (attr, value) = with_attr.into_inner();
    assert_eq!(value, (2039123, 9543892));
    assert_eq!(attr[0].0, "a");
    assert_eq!(attr[0].1, deseresp::read::Number::Decimal(false, b"0.1923"));
    assert_eq!(attr[1].0, "b");
    assert_eq!(attr[1].1, deseresp::read::Number::Decimal(false, b"0.0012"));
}

#[test]
fn types_test_nested_deserialize_attribute() {
    let input = b"|1\r\n+a\r\n|1\r\n+b\r\n+c\r\n:200\r\n:300\r\n";
    // WithAttribute<Test { a: usize }, usize>
    let mut d = Deserializer::from_slice(input);
    let saved = d.begin_with_attribute().unwrap();
    let (_, inner) = d.deserialize_map().unwrap();
    assert_eq!(d.deserialize_str().unwrap(), "a");
    let a = d.deserialize_u64().unwrap();
    d.set_skip_attribute(inner);
    let value = d.deserialize_u64().unwrap();
    d.set_skip_attribute(saved);
    assert_eq!(a, 200);
    assert_eq!(value, 300);

    // WithAttribute<Attr { a: WithAttribute<InnerAttr { b: String }, usize> }, usize>
    let mut d = Deserializer::from_slice(input);
    let saved = d.begin_with_attribute().unwrap();
    let (_, inner) = d.deserialize_map().unwrap();
    assert_eq!(d.deserialize_str().unwrap(), "a");
    let saved_a = d.begin_with_attribute().unwrap();
    let (_, inner_a) = d.deserialize_map().unwrap();
    assert_eq!(d.deserialize_str().unwrap(), "b");
    let b = d.deserialize_str().unwrap().to_string();
    d.set_skip_attribute(inner_a);
    let attr_value = d.deserialize_u64().unwrap();
    d.set_skip_attribute(saved_a);
    d.set_skip_attribute(inner);
    let value = d.deserialize_u64().unwrap();
    d.set_skip_attribute(saved);
    let attr = WithAttribute::new(WithAttribute::new(b, attr_value), value);
    let (attr_a, value) = attr.into_inner();
    assert_eq!(attr_a.into_attribute(), "c");
    assert_eq!(value, 300);
    assert_eq!(attr_value, 200);
}

#[test]
fn borrowed_text_points_into_the_input() {
    let input: &[u8] = b"$11\r\nhello world\r\n";
    let mut d = Deserializer::from_slice(input);
    let s = borrowed::BlobString::deserialize(&mut d).unwrap().0;
    let start = input.as_ptr() as usize;
    let p = s.as_ptr() as usize;
    assert!(start <= p && p + s.len() <= start + input.len());
    assert_eq!(p, start + 5);
    assert_eq!(d.get_consumed_bytes(), input.len());
    assert_eq!(d.get_ref().as_ptr(), input.as_ptr());
}

#[test]
fn ok_response_deserializes() {
    let mut d = Deserializer::from_slice(b"+OK\r\n");
    assert!(OkResponse::deserialize(&mut d).is_ok());
    let mut d = Deserializer::from_slice(b"+ok\r\n");
    assert!(OkResponse::deserialize(&mut d).is_ok());
    let mut d = Deserializer::from_slice(b"+NO\r\n");
    match OkResponse::deserialize(&mut d) {
        Err(Error::Custom(m)) => assert_eq!(m, "expect +OK"),
        _ => panic!("expected a custom error"),
    }
    let mut d = Deserializer::from_slice(b"|1\r\n+k\r\n+v\r\n+OK\r\n");
    assert!(OkResponse::deserialize(&mut d).is_ok());
    let mut d = Deserializer::from_slice(b"$2\r\nOK\r\n");
    assert!(matches!(
        OkResponse::deserialize(&mut d),
        Err(Error::ExpectedMarker("simple string"))
    ));
}

#[test]
fn skip_types() {
    let mut d = Deserializer::from_slice(b"%1\r\n+k\r\n*2\r\n:1\r\n#t\r\n:9\r\n");
    AnySkip::deserialize(&mut d).unwrap();
    assert_eq!(d.deserialize_i64().unwrap(), 9);

    let mut d = Deserializer::from_slice(b"|1\r\n+k\r\n+v\r\n:9\r\n");
    AttributeSkip::deserialize(&mut d).unwrap();
    assert_eq!(d.get_consumed_bytes(), 12);

    let mut d = Deserializer::from_slice(b"|1\r\n+k\r\n*1\r\n|1\r\n+a\r\n+b\r\n:1\r\n:7\r\n:9\r\n");
    let saved = d.set_skip_attribute(false);
    AnySkip::deserialize(&mut d).unwrap();
    assert_eq!(d.set_skip_attribute(saved), false);
    assert_eq!(d.deserialize_i64().unwrap(), 9);

    let mut d = Deserializer::from_slice(b":9\r\n");
    assert!(matches!(
        AttributeSkip::deserialize(&mut d),
        Err(Error::ExpectedMarker("attribute"))
    ));
}

#[test]
fn tags_of_names() {
    assert_eq!(tag_of("$SimpleError"), Tag::Str(deseresp::de::StringKind::SimpleError));
    assert_eq!(tag_of("$WithAttribute"), Tag::WithAttribute);
    assert_eq!(tag_of("$AttributeSkip"), Tag::AttributeSkip);
    assert_eq!(tag_of("$Push"), Tag::Push);
    assert_eq!(tag_of("$Pus"), Tag::Other);
}

#[test]
fn push_and_with_attribute_accessors() {
    let w = WithAttribute::new(1, "v");
    assert_eq!(w.into_value(), "v");
    let w = WithAttribute::new(1, "v");
    assert_eq!(w.into_attribute(), 1);
    assert_eq!(Push(7).into_inner(), 7);
}

#[test]
fn integers_round_trip() {
    for v in [0i64, 1, -1, 9, 10, -10, 12345, i64::MAX, i64::MIN + 1] {
        let mut se = from_write(Vec::new());
        se.write_i64(v).unwrap();
        let bytes = se.into_inner();
        let mut d = Deserializer::from_slice(&bytes);
        assert_eq!(d.deserialize_i64().unwrap(), v);
        assert_eq!(d.get_consumed_bytes(), bytes.len());
    }
}

#[test]
fn i64_min_does_not_round_trip() {
    let mut se = from_write(Vec::new());
    se.write_i64(i64::MIN).unwrap();
    let bytes = se.into_inner();
    let mut d = Deserializer::from_slice(&bytes);
    assert!(matches!(d.deserialize_i64(), Err(Error::Parse)));
}

#[test]
fn strings_round_trip() {
    for text in ["", "hello", "héllo wörld", "a\r\nb"] {
        let mut se = from_write(Vec::new());
        owned::BlobString::new(text).serialize(&mut se).unwrap();
        let bytes = se.into_inner();
        let mut d = Deserializer::from_slice(&bytes);
        assert_eq!(owned::BlobString::deserialize(&mut d).unwrap().0, text);
    }
    for text in ["", "hello", "héllo wörld"] {
        let mut se = from_write(Vec::new());
        owned::SimpleString::new(text).serialize(&mut se).unwrap();
        let bytes = se.into_inner();
        let mut d = Deserializer::from_slice(&bytes);
        assert_eq!(owned::SimpleString::deserialize(&mut d).unwrap().0, text);
    }
}

#[test]
fn attribute_before_value_is_transparent() {
    let value: &[u8] = b"*2\r\n:1\r\n+x\r\n";
    let mut with_attr = b"|2\r\n+a\r\n|1\r\n+n\r\n+m\r\n:1\r\n+b\r\n#t\r\n".to_vec();
    let prefix = with_attr.len();
    with_attr.extend_from_slice(value);

    let mut plain = Deserializer::from_slice(value);
    let mut prefixed = Deserializer::from_slice(&with_attr);
    assert_eq!(plain.deserialize_seq().unwrap(), prefixed.deserialize_seq().unwrap());
    assert_eq!(plain.get_consumed_bytes() + prefix, prefixed.get_consumed_bytes());
    assert_eq!(plain.deserialize_i64().unwrap(), prefixed.deserialize_i64().unwrap());
    assert_eq!(plain.deserialize_str().unwrap(), prefixed.deserialize_str().unwrap());
}

#[test]
fn captured_attribute_reads_like_its_map_form() {
    let mut captured = Deserializer::from_slice(b"|1\r\n+a\r\n:200\r\n:300\r\n");
    let saved = captured.begin_with_attribute().unwrap();
    let (n, inner) = captured.deserialize_map().unwrap();
    let key = captured.deserialize_str().unwrap();
    let a = captured.deserialize_u64().unwrap();
    captured.set_skip_attribute(inner);
    let value = captured.deserialize_u64().unwrap();
    captured.set_skip_attribute(saved);

    let mut alone = Deserializer::from_slice(b"%1\r\n+a\r\n:200\r\n");
    let (n2, _) = alone.deserialize_map().unwrap();
    assert_eq!((n, key, a), (n2, alone.deserialize_str().unwrap(), alone.deserialize_u64().unwrap()));
    let mut v_alone = Deserializer::from_slice(b":300\r\n");
    assert_eq!(value, v_alone.deserialize_u64().unwrap());
}
