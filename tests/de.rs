use std::collections::HashMap;

use deseresp::de::{Category, Deserializer, StringKind};
use deseresp::read::{Number, RefReader};
use deseresp::types::owned::{BlobError, BlobString, SimpleError, SimpleString};
use deseresp::Error;

fn to_f64(n: Number) -> f64 {
    match n {
        Number::Integer(v) => v as f64,
        Number::Infinity(negative) => {
            if negative {
                f64::NEG_INFINITY
            } else {
                f64::INFINITY
            }
        }
        Number::Decimal(negative, digits) => {
            let v: f64 = std::str::from_utf8(digits).unwrap().parse().unwrap();
            if negative {
                -v
            } else {
                v
            }
        }
    }
}

fn read_u64_pair(d: &mut Deserializer) -> (u64, u64) {
    assert_eq!(d.deserialize_seq().unwrap(), 2);
    let a = d.deserialize_u64().unwrap();
    let b = d.deserialize_u64().unwrap();
    (a, b)
}

#[test]
fn test_blob_string() {
    let mut d = Deserializer::from_slice(b"$11\r\nhello world\r\n");
    assert_eq!(d.deserialize_str().unwrap(), "hello world");

    let mut d = Deserializer::from_slice(b"$11\r\nhello world\r\n");
    let value = BlobString::deserialize(&mut d).unwrap();
    assert_eq!(value.0, "hello world");

    let mut d = Deserializer::from_slice(b"+hello world\r\n");
    let value = BlobString::deserialize(&mut d);
    assert!(matches!(value, Err(_)));
}

#[test]
fn test_simple_string() {
    let mut d = Deserializer::from_slice(b"+hello world\r\n");
    assert_eq!(d.deserialize_str().unwrap(), "hello world");

    let mut d = Deserializer::from_slice(b"+hello world\r\n");
    let value = SimpleString::deserialize(&mut d).unwrap();
    assert_eq!(value.0, "hello world");
}

#[test]
fn test_blob_error() {
    let mut d = Deserializer::from_slice(b"!15\r\nERR hello world\r\n");
    let value = BlobError::deserialize(&mut d).unwrap();
    assert_eq!(value.0, "ERR hello world");
}

#[test]
fn test_simple_error() {
    let mut d = Deserializer::from_slice(b"-ERR hello world\r\n");
    let value = SimpleError::deserialize(&mut d).unwrap();
    assert_eq!(value.0, "ERR hello world");
}

#[test]
fn test_bool() {
    let mut d = Deserializer::from_slice(b"#t\r\n");
    assert_eq!(d.deserialize_bool().unwrap(), true);

    let mut d = Deserializer::from_slice(b"#f\r\n");
    assert_eq!(d.deserialize_bool().unwrap(), false);
}

#[test]
fn test_number() {
    let mut d = Deserializer::from_slice(b":12345\r\n");
    assert_eq!(d.deserialize_i64().unwrap(), 12345);

    let mut d = Deserializer::from_slice(b":-12345\r\n");
    assert_eq!(d.deserialize_i64().unwrap(), -12345);
}

#[test]
fn test_double() {
    let mut d = Deserializer::from_slice(b",1.23\r\n");
    assert_eq!(to_f64(d.deserialize_f64().unwrap()), 1.23);

    let mut d = Deserializer::from_slice(b",10\r\n");
    assert_eq!(to_f64(d.deserialize_f64().unwrap()), 10.0);

    let mut d = Deserializer::from_slice(b",inf\r\n");
    assert_eq!(to_f64(d.deserialize_f64().unwrap()), f64::INFINITY);

    let mut d = Deserializer::from_slice(b",-inf\r\n");
    assert_eq!(to_f64(d.deserialize_f64().unwrap()), f64::NEG_INFINITY);
}

#[test]
fn test_char() {
    let mut d = Deserializer::from_slice(b"+a\r\n");
    let s = d.deserialize_str().unwrap();
    let mut chars = s.chars();
    assert_eq!(chars.next(), Some('a'));
    assert_eq!(chars.next(), None);
}

#[test]
fn test_seq() {
    let mut d = Deserializer::from_slice(b"*3\r\n:1\r\n:2\r\n:3\r\n");
    let n = d.deserialize_seq().unwrap();
    let mut value = Vec::new();
    for _ in 0..n {
        value.push(d.deserialize_u64().unwrap());
    }
    assert_eq!(value, [1, 2, 3]);

    let mut d = Deserializer::from_slice(b"*2\r\n*3\r\n:1\r\n$5\r\nhello\r\n:2\r\n#f\r\n");
    assert_eq!(d.deserialize_seq().unwrap(), 2);
    assert_eq!(d.deserialize_seq().unwrap(), 3);
    let a = d.deserialize_u64().unwrap();
    let b = d.deserialize_str().unwrap().to_string();
    let c = d.deserialize_u64().unwrap();
    let flag = d.deserialize_bool().unwrap();
    assert_eq!(((a, b, c), flag), ((1, String::from("hello"), 2), false));
}

#[test]
fn test_map() {
    let input = b"%2\r\n+first\r\n:1\r\n+second\r\n:2\r\n";
    let mut d = Deserializer::from_slice(input);
    let (n, saved) = d.deserialize_map().unwrap();
    let mut value: HashMap<String, usize> = HashMap::new();
    for _ in 0..n {
        let k = d.deserialize_str().unwrap().to_string();
        let v = d.deserialize_u64().unwrap() as usize;
        value.insert(k, v);
    }
    d.set_skip_attribute(saved);
    let kv = value.into_iter().collect::<Vec<_>>();
    assert!(kv.contains(&("first".to_string(), 1)));
    assert!(kv.contains(&("second".to_string(), 2)));

    // a record with fields `first: usize` and `second: f64`
    let mut d = Deserializer::from_slice(input);
    let (n, _) = d.deserialize_map().unwrap();
    let mut first = 0usize;
    let mut second = 0f64;
    for _ in 0..n {
        match d.deserialize_str().unwrap() {
            "first" => first = d.deserialize_u64().unwrap() as usize,
            "second" => second = to_f64(d.deserialize_f64().unwrap()),
            _ => d.skip_any().unwrap(),
        }
    }
    assert_eq!((first, second), (1, 2.0));
}

#[test]
fn de_test_ignore_attribute() {
    let mut d = Deserializer::from_slice(b"|1\r\n+key-popularity\r\n%2\r\n$1\r\na\r\n,0.1923\r\n$1\r\nb\r\n,0.0012\r\n*2\r\n:2039123\r\n:9543892\r\n");
    assert_eq!(read_u64_pair(&mut d), (2039123, 9543892));

    let mut d = Deserializer::from_slice(b"|1\r\n+hello\r\n+world\r\n#t\r\n");
    assert_eq!(d.deserialize_bool().unwrap(), true);
}

/// Reads `WithAttribute<Meta, Pair>` where `Meta` holds `key-popularity`, a
/// record of two doubles `a` and `b`.
fn read_key_popularity(input: &[u8]) -> ((f64, f64), (u64, u64)) {
    let mut d = Deserializer::from_slice(input);
    let saved = d.begin_with_attribute().unwrap();
    let (n, inner) = d.deserialize_map().unwrap();
    let mut ab = (0.0, 0.0);
    for _ in 0..n {
        assert_eq!(d.deserialize_str().unwrap(), "key-popularity");
        let (m, inner2) = d.deserialize_map().unwrap();
        for _ in 0..m {
            match d.deserialize_str().unwrap() {
                "a" => ab.0 = to_f64(d.deserialize_f64().unwrap()),
                "b" => ab.1 = to_f64(d.deserialize_f64().unwrap()),
                _ => panic!("unexpected field"),
            }
        }
        d.set_skip_attribute(inner2);
    }
    d.set_skip_attribute(inner);
    let pair = read_u64_pair(&mut d);
    d.set_skip_attribute(saved);
    (ab, pair)
}

#[test]
fn de_test_deserialize_attribute() {
    let (attr, value) = read_key_popularity(b"|1\r\n+key-popularity\r\n%2\r\n$1\r\na\r\n,0.1923\r\n$1\r\nb\r\n,0.0012\r\n*2\r\n:2039123\r\n:9543892\r\n");
    assert_eq!(value, (2039123, 9543892));
    assert_eq!(attr.0, 0.1923);
    assert_eq!(attr.1, 0.0012);
}

#[test]
fn de_test_nested_deserialize_attribute() {
    // WithAttribute<Test { a: usize }, usize>
    let mut d = Deserializer::from_slice(b"|1\r\n+a\r\n|1\r\n+b\r\n+c\r\n:200\r\n:300\r\n");
    let saved = d.begin_with_attribute().unwrap();
    let (n, inner) = d.deserialize_map().unwrap();
    assert_eq!(n, 1);
    assert_eq!(d.deserialize_str().unwrap(), "a");
    let a = d.deserialize_u64().unwrap();
    d.set_skip_attribute(inner);
    let value = d.deserialize_u64().unwrap();
    d.set_skip_attribute(saved);
    assert_eq!(a, 200);
    assert_eq!(value, 300);
}

#[test]
fn deserialize_owned_types() {
    let mut d = Deserializer::from_slice(b"+hello world\r\n");
    assert_eq!(SimpleString::deserialize(&mut d).unwrap().0, "hello world");
    let mut d = Deserializer::from_slice(b"-ERR hello world\r\n");
    assert_eq!(SimpleError::deserialize(&mut d).unwrap().0, "ERR hello world");
    let mut d = Deserializer::from_slice(b"$11\r\nhello world\r\n");
    assert_eq!(BlobString::deserialize(&mut d).unwrap().0, "hello world");
    let mut d = Deserializer::from_slice(b"!15\r\nERR hello world\r\n");
    assert_eq!(BlobError::deserialize(&mut d).unwrap().0, "ERR hello world");
}

#[test]
fn tagged_string_refuses_other_marker() {
    let mut d = Deserializer::from_slice(b"$5\r\nhello\r\n");
    assert!(matches!(
        d.deserialize_tagged(StringKind::SimpleString),
        Err(Error::ExpectedMarker("simple string"))
    ));
    let mut d = Deserializer::from_slice(b"+hello\r\n");
    assert!(matches!(
        d.deserialize_tagged(StringKind::BlobError),
        Err(Error::ExpectedMarker("blob error"))
    ));
}

#[test]
fn verbatim_string_reads_as_text() {
    let mut d = Deserializer::from_slice(b"=9\r\ntxt:hello\r\n");
    assert_eq!(d.deserialize_str().unwrap(), "txt:hello");
}

#[test]
fn bytes_accept_non_utf8_but_str_refuses() {
    let input = b"$3\r\na\xffb\r\n";
    let mut d = Deserializer::from_slice(input);
    assert_eq!(d.deserialize_bytes().unwrap(), b"a\xffb");
    let mut d = Deserializer::from_slice(input);
    assert!(matches!(d.deserialize_str(), Err(Error::UTF8(1))));
}

#[test]
fn option_and_unit() {
    let mut d = Deserializer::from_slice(b"_\r\n");
    assert_eq!(d.deserialize_option().unwrap(), false);
    assert_eq!(d.get_consumed_bytes(), 3);

    let mut d = Deserializer::from_slice(b":5\r\n");
    assert_eq!(d.deserialize_option().unwrap(), true);
    assert_eq!(d.get_consumed_bytes(), 0);
    assert_eq!(d.deserialize_i64().unwrap(), 5);

    let mut d = Deserializer::from_slice(b"_\r\n");
    assert!(d.deserialize_unit().is_ok());
    let mut d = Deserializer::from_slice(b"+x\r\n");
    assert!(matches!(d.deserialize_unit(), Err(Error::ExpectedMarker("null"))));
}

#[test]
fn number_errors() {
    let mut d = Deserializer::from_slice(b":012\r\n");
    assert!(matches!(d.deserialize_i64(), Err(Error::UnexpectedValue("number after 0"))));

    let mut d = Deserializer::from_slice(b":0\r\n");
    assert_eq!(d.deserialize_u64().unwrap(), 0);

    let mut d = Deserializer::from_slice(b":-5\r\n");
    assert!(matches!(d.deserialize_u64(), Err(Error::UnexpectedValue("signed"))));

    let mut d = Deserializer::from_slice(b":x\r\n");
    assert!(matches!(d.deserialize_i64(), Err(Error::ExpectedValue("number"))));

    let mut d = Deserializer::from_slice(b":9223372036854775808\r\n");
    assert!(matches!(d.deserialize_i64(), Err(Error::Parse)));

    let mut d = Deserializer::from_slice(b":18446744073709551615\r\n");
    assert_eq!(d.deserialize_u64().unwrap(), u64::MAX);

    let mut d = Deserializer::from_slice(b":18446744073709551616\r\n");
    assert!(matches!(d.deserialize_u64(), Err(Error::Parse)));

    let mut d = Deserializer::from_slice(b"#t\r\n");
    assert!(matches!(d.deserialize_i64(), Err(Error::ExpectedMarker("number"))));

    let mut d = Deserializer::from_slice(b":12");
    assert!(matches!(d.deserialize_i64(), Err(Error::EOF)));

    let mut d = Deserializer::from_slice(b":12\rx");
    assert!(matches!(d.deserialize_i64(), Err(Error::ExpectedValue("ident"))));
}

#[test]
fn double_errors() {
    let mut d = Deserializer::from_slice(b",1.5e3\r\n");
    assert_eq!(to_f64(d.deserialize_f64().unwrap()), 1500.0);

    let mut d = Deserializer::from_slice(b",-2.5\r\n");
    assert_eq!(to_f64(d.deserialize_f64().unwrap()), -2.5);

    let mut d = Deserializer::from_slice(b",abc\r\n");
    assert!(matches!(d.deserialize_f64(), Err(Error::Parse)));

    let mut d = Deserializer::from_slice(b",1.\r\n");
    assert_eq!(to_f64(d.deserialize_f64().unwrap()), 1.0);

    let mut d = Deserializer::from_slice(b",.5\r\n");
    assert_eq!(d.deserialize_f64().unwrap(), Number::Decimal(false, b".5"));

    let mut d = Deserializer::from_slice(b",+1.5\r\n");
    assert_eq!(to_f64(d.deserialize_f64().unwrap()), 1.5);

    let mut d = Deserializer::from_slice(b",1.e2\r\n");
    assert_eq!(to_f64(d.deserialize_f64().unwrap()), 100.0);

    let mut d = Deserializer::from_slice(b",.\r\n");
    assert!(matches!(d.deserialize_f64(), Err(Error::Parse)));

    let mut d = Deserializer::from_slice(b",nan\r\n");
    assert!(matches!(d.deserialize_f64(), Err(Error::Parse)));

    let mut d = Deserializer::from_slice(b",1e\r\n");
    assert!(matches!(d.deserialize_f64(), Err(Error::Parse)));

    let mut d = Deserializer::from_slice(b":-7\r\n");
    assert_eq!(to_f64(d.deserialize_f64().unwrap()), -7.0);

    let mut d = Deserializer::from_slice(b"+7\r\n");
    assert!(matches!(d.deserialize_f64(), Err(Error::ExpectedMarker("number|double"))));
}

#[test]
fn bool_errors() {
    let mut d = Deserializer::from_slice(b"#x\r\n");
    assert!(matches!(d.deserialize_bool(), Err(Error::ExpectedValue("bool"))));
    let mut d = Deserializer::from_slice(b":1\r\n");
    assert!(matches!(d.deserialize_bool(), Err(Error::ExpectedMarker("bool"))));
    let mut d = Deserializer::from_slice(b"");
    assert!(matches!(d.deserialize_bool(), Err(Error::EOF)));
}

#[test]
fn blob_string_too_short_is_eof() {
    let mut d = Deserializer::from_slice(b"$11\r\nhello\r\n");
    assert!(matches!(d.deserialize_str(), Err(Error::EOF)));
}

#[test]
fn any_category_and_skip() {
    let mut d = Deserializer::from_slice(b"|1\r\n+k\r\n+v\r\n*2\r\n:1\r\n+x\r\n#t\r\n");
    assert_eq!(d.deserialize_any().unwrap(), Category::Sequence);
    d.skip_any().unwrap();
    assert_eq!(d.deserialize_bool().unwrap(), true);

    let mut d = Deserializer::from_slice(b"_\r\n");
    assert!(matches!(d.deserialize_any(), Err(Error::ExpectedValue("type header"))));
}

#[test]
fn fewer_children_than_declared_is_eof() {
    let mut d = Deserializer::from_slice(b"*3\r\n:1\r\n:2\r\n");
    assert!(matches!(d.skip_any(), Err(Error::EOF)));
}

#[test]
fn extra_children_stay_unread() {
    let mut d = Deserializer::from_slice(b"*1\r\n:1\r\n:2\r\n");
    d.skip_any().unwrap();
    assert_eq!(d.get_consumed_bytes(), 8);
    assert_eq!(d.deserialize_i64().unwrap(), 2);
}

#[test]
fn push_header() {
    let mut d = Deserializer::from_slice(b">2\r\n+message\r\n+hello world\r\n");
    assert_eq!(d.deserialize_push().unwrap(), 2);
    assert_eq!(d.deserialize_str().unwrap(), "message");
    assert_eq!(d.deserialize_str().unwrap(), "hello world");

    let mut d = Deserializer::from_slice(b"*2\r\n+a\r\n+b\r\n");
    assert!(matches!(d.deserialize_push(), Err(Error::ExpectedMarker("push"))));
}

#[test]
fn with_attribute_needs_attribute() {
    let mut d = Deserializer::from_slice(b":1\r\n");
    assert!(matches!(d.begin_with_attribute(), Err(Error::ExpectedMarker("attribute"))));
}

#[test]
fn tagged_string_after_attribute() {
    let mut d = Deserializer::from_slice(b"|1\r\n+k\r\n+v\r\n+hello\r\n");
    assert_eq!(SimpleString::deserialize(&mut d).unwrap().0, "hello");
    assert_eq!(d.get_consumed_bytes(), 20);
}

#[test]
fn several_attributes_in_a_row_are_skipped() {
    let mut d = Deserializer::from_slice(b"|1\r\n+a\r\n+b\r\n|1\r\n+c\r\n:1\r\n:42\r\n");
    assert_eq!(d.deserialize_i64().unwrap(), 42);
}

#[test]
fn short_slice_leaves_reader_in_place() {
    let mut r = RefReader::from_slice(b"abc");
    assert!(matches!(r.read_slice(5, false), Err(Error::EOF)));
    assert_eq!(r.consumed_bytes(), 0);
    assert!(matches!(r.read_slice_until_eol(true), Err(Error::EOF)));
    assert_eq!(r.consumed_bytes(), 0);
}

#[test]
fn fewer_typed_children_than_declared_is_eof() {
    let mut d = Deserializer::from_slice(b"*3\r\n:1\r\n:2\r\n");
    assert_eq!(d.deserialize_seq().unwrap(), 3);
    assert_eq!(d.deserialize_i64().unwrap(), 1);
    assert_eq!(d.deserialize_i64().unwrap(), 2);
    assert!(matches!(d.deserialize_i64(), Err(Error::EOF)));
}

#[test]
fn double_reader_stops_at_line_end() {
    let mut r = RefReader::from_slice(b"inf\r\n");
    assert_eq!(r.read_double().unwrap(), Number::Infinity(false));
    assert_eq!(r.consumed_bytes(), 3);

    let mut r = RefReader::from_slice(b"-1.5\n");
    assert_eq!(r.read_double().unwrap(), Number::Decimal(true, b"1.5"));
    assert_eq!(r.consumed_bytes(), 4);

    let mut r = RefReader::from_slice(b"1.5");
    assert!(matches!(r.read_double(), Err(Error::EOF)));
}
