use bytes::BytesMut;
use miniredis::decimal::{parse_decimal, push_decimal};
use miniredis::protocol::{decode, RespError, RespType};

#[test]
fn test_simple_string_success() {
    let mut buffer = BytesMut::from("+OK\r\n");

    let result = decode(&mut buffer).unwrap();

    match result {
        Some(RespType::SimpleString(s)) => assert_eq!(s, "OK"),
        _ => panic!("Expected SimpleString('OK'), got {:?}", result),
    }

    assert_eq!(buffer.len(), 0);
}

#[test]
fn test_simple_string_incomplete() {
    let mut buffer = BytesMut::from("+Hel");

    let result = decode(&mut buffer).unwrap();

    assert!(result.is_none());

    assert_eq!(buffer.len(), 4);
}

#[test]
fn test_decimal_success() {
    let mut buffer = BytesMut::from(":1000\r\n");
    let result = decode(&mut buffer).unwrap();

    match result {
        Some(RespType::Integer(val)) => assert_eq!(val, 1000),
        _ => panic!("Expected Integer(1000), got {:?}", result),
    }
    assert_eq!(buffer.len(), 0);
}

#[test]
fn test_decimal_negative() {
    let mut buffer = BytesMut::from(":-42\r\n");
    let result = decode(&mut buffer).unwrap();

    match result {
        Some(RespType::Integer(val)) => assert_eq!(val, -42),
        _ => panic!("Expected Integer(-42), got {:?}", result),
    }
    assert_eq!(buffer.len(), 0);
}

#[test]
fn test_decimal_incomplete() {
    let mut buffer = BytesMut::from(":100");
    let result = decode(&mut buffer).unwrap();

    assert!(result.is_none());
    assert_eq!(buffer.len(), 4);
}

#[test]
fn test_decimal_invalid() {
    let mut buffer = BytesMut::from(":ABC\r\n");
    let result = decode(&mut buffer);

    match result {
        Err(RespError::IntError) => (),
        _ => panic!("Expected IntError, got {:?}", result),
    }
    assert_eq!(buffer.len(), 6);
}

#[test]
fn test_bulk_string_success() {
    let mut buffer = BytesMut::from("$5\r\nhello\r\n");
    let result = decode(&mut buffer).unwrap();

    match result {
        Some(RespType::BulkString(data)) => assert_eq!(data, b"hello"),
        _ => panic!("Expected BulkString('hello'), got {:?}", result),
    }
    assert_eq!(buffer.len(), 0);
}

#[test]
fn test_bulk_string_null() {
    let mut buffer = BytesMut::from("$-1\r\n");
    let result = decode(&mut buffer).unwrap();

    match result {
        Some(RespType::Null) => (),
        _ => panic!("Expected Null, got {:?}", result),
    }
    assert_eq!(buffer.len(), 0);
}

#[test]
fn test_bulk_string_incomplete() {
    let mut buffer = BytesMut::from("$5\r\nhel");
    let result = decode(&mut buffer).unwrap();

    assert!(result.is_none());
    assert_eq!(buffer.len(), 7);
}

#[test]
fn test_array_simple() {
    let mut buffer = BytesMut::from("*2\r\n$4\r\necho\r\n$5\r\nhello\r\n");
    let result = decode(&mut buffer).unwrap();

    match result {
        Some(RespType::Array(items)) => {
            assert_eq!(items.len(), 2);
            match &items[0] {
                RespType::BulkString(b) => assert_eq!(b, b"echo"),
                _ => panic!("Expected BulkString"),
            }
        }
        _ => panic!("Expected Array, got {:?}", result),
    }
    assert_eq!(buffer.len(), 0);
}

#[test]
fn test_array_nested() {
    let mut buffer = BytesMut::from("*1\r\n*1\r\n:5\r\n");
    let result = decode(&mut buffer).unwrap();

    if let Some(RespType::Array(ref outer)) = result {
        if let RespType::Array(inner) = &outer[0] {
            if let RespType::Integer(val) = inner[0] {
                assert_eq!(val, 5);
                return;
            }
        }
    }
    panic!("Nested array parsing failed! Got: {:?}", result);
}

#[test]
fn test_array_incomplete() {
    let mut buffer = BytesMut::from("*2\r\n:100\r\n");
    let result = decode(&mut buffer).unwrap();

    assert!(result.is_none());
    assert_eq!(buffer.len(), 10);
}

#[test]
fn test_overall_protocol_pipeline() {
    let mut buffer = BytesMut::from("+OK\r\n:100\r\n$5\r\nhello\r\n");

    let res1 = decode(&mut buffer).unwrap();
    match res1 {
        Some(RespType::SimpleString(s)) => assert_eq!(s, "OK"),
        _ => panic!("Expected OK, got {:?}", res1),
    }

    assert_eq!(buffer.len(), 17);

    let res2 = decode(&mut buffer).unwrap();
    match res2 {
        Some(RespType::Integer(i)) => assert_eq!(i, 100),
        _ => panic!("Expected 100, got {:?}", res2),
    }
    assert_eq!(buffer.len(), 11);

    let res3 = decode(&mut buffer).unwrap();
    match res3 {
        Some(RespType::BulkString(b)) => assert_eq!(b, b"hello"),
        _ => panic!("Expected hello, got {:?}", res3),
    }
    assert_eq!(buffer.len(), 0);
}

#[test]
fn test_empty_buffer() {
    let mut buffer = BytesMut::new();
    let result = decode(&mut buffer).unwrap();
    assert!(result.is_none());
}

#[test]
fn test_serialize_simple_string() {
    let resp = RespType::SimpleString("OK".to_string());
    assert_eq!(resp.serialize(), b"+OK\r\n");
}

#[test]
fn test_serialize_bulk_string() {
    let resp = RespType::BulkString(b"hello".to_vec());
    assert_eq!(resp.serialize(), b"$5\r\nhello\r\n");
}

#[test]
fn test_serialize_integer() {
    let resp = RespType::Integer(42);
    assert_eq!(resp.serialize(), b":42\r\n");
}

#[test]
fn test_serialize_null() {
    let resp = RespType::Null;
    assert_eq!(resp.serialize(), b"$-1\r\n");
}

#[test]
fn test_serialize_error() {
    let resp = RespType::Error("Error message".to_string());
    assert_eq!(resp.serialize(), b"-Error message\r\n");
}

// Values written by `serialize` read back as themselves, with the bytes that follow left behind.

fn read_back(value: RespType) -> RespType {
    let mut bytes = value.serialize();
    bytes.extend_from_slice(b"+next\r\n");
    let mut buffer = BytesMut::from(&bytes[..]);
    let out = decode(&mut buffer).unwrap().expect("a whole frame");
    assert_eq!(&buffer[..], b"+next\r\n");
    out
}

#[test]
fn round_trip_simple_string() {
    match read_back(RespType::SimpleString("caf\u{e9} ok".to_string())) {
        RespType::SimpleString(s) => assert_eq!(s, "caf\u{e9} ok"),
        other => panic!("got {:?}", other),
    }
}

#[test]
fn round_trip_integers() {
    for n in [0i64, 7, -1, i64::MAX, i64::MIN] {
        match read_back(RespType::Integer(n)) {
            RespType::Integer(m) => assert_eq!(m, n),
            other => panic!("got {:?}", other),
        }
    }
}

#[test]
fn round_trip_bulk_string_with_line_ends_inside() {
    let data = b"a\r\nb\x00\xff".to_vec();
    match read_back(RespType::BulkString(data.clone())) {
        RespType::BulkString(d) => assert_eq!(d, data),
        other => panic!("got {:?}", other),
    }
    match read_back(RespType::BulkString(Vec::new())) {
        RespType::BulkString(d) => assert!(d.is_empty()),
        other => panic!("got {:?}", other),
    }
}

#[test]
fn round_trip_null() {
    assert!(matches!(read_back(RespType::Null), RespType::Null));
}

#[test]
fn error_frames_are_not_read() {
    let bytes = RespType::Error("ERR".to_string()).serialize();
    let mut buffer = BytesMut::from(&bytes[..]);
    assert!(matches!(decode(&mut buffer), Err(RespError::InvalidProtocol)));
    assert_eq!(buffer.len(), bytes.len());
}

#[test]
fn array_is_written_as_an_error_frame() {
    let resp = RespType::Array(vec![RespType::Integer(1)]);
    assert_eq!(resp.serialize(), b"-ERR array serialization not supported\r\n");
}

#[test]
fn every_strict_prefix_is_incomplete() {
    let frame: &[u8] = b"*2\r\n$3\r\nGET\r\n$3\r\nfoo\r\n*1\r\n*1\r\n:5\r\n";
    for whole in [&frame[..22], &frame[22..]] {
        for k in 0..whole.len() {
            let mut buffer = BytesMut::from(&whole[..k]);
            assert!(decode(&mut buffer).unwrap().is_none(), "prefix {}", k);
            assert_eq!(&buffer[..], &whole[..k]);
        }
        let mut buffer = BytesMut::from(whole);
        assert!(decode(&mut buffer).unwrap().is_some());
        assert!(buffer.is_empty());
    }
}

#[test]
fn null_array() {
    let mut buffer = BytesMut::from("*-1\r\n");
    assert!(matches!(decode(&mut buffer).unwrap(), Some(RespType::Null)));
    assert!(buffer.is_empty());
}

#[test]
fn empty_array() {
    let mut buffer = BytesMut::from("*0\r\n");
    match decode(&mut buffer).unwrap() {
        Some(RespType::Array(items)) => assert!(items.is_empty()),
        other => panic!("got {:?}", other),
    }
}

#[test]
fn unknown_tag_is_invalid_protocol() {
    let mut buffer = BytesMut::from("?x\r\n");
    assert!(matches!(decode(&mut buffer), Err(RespError::InvalidProtocol)));
    assert_eq!(buffer.len(), 4);
}

#[test]
fn simple_string_bad_utf8() {
    let mut buffer = BytesMut::from(&b"+a\xff\r\n"[..]);
    assert!(matches!(decode(&mut buffer), Err(RespError::Utf8Error)));
    assert_eq!(buffer.len(), 5);
}

#[test]
fn integer_header_bad_utf8() {
    let mut buffer = BytesMut::from(&b":\xc3\r\n"[..]);
    assert!(matches!(decode(&mut buffer), Err(RespError::Utf8Error)));
}

#[test]
fn integer_out_of_range() {
    let mut buffer = BytesMut::from(":9223372036854775808\r\n");
    assert!(matches!(decode(&mut buffer), Err(RespError::IntError)));
    let mut buffer = BytesMut::from(":-9223372036854775808\r\n");
    assert!(matches!(decode(&mut buffer).unwrap(), Some(RespType::Integer(i64::MIN))));
}

#[test]
fn bulk_string_bad_length() {
    let mut buffer = BytesMut::from("$x\r\nabc\r\n");
    assert!(matches!(decode(&mut buffer), Err(RespError::IntError)));
    let mut buffer = BytesMut::from("$-2\r\n");
    assert!(matches!(decode(&mut buffer), Err(RespError::InvalidProtocol)));
    let mut buffer = BytesMut::from("*-5\r\n");
    assert!(matches!(decode(&mut buffer), Err(RespError::InvalidProtocol)));
}

#[test]
fn bulk_string_without_line_end_after_data() {
    let mut buffer = BytesMut::from("$3\r\nabcde");
    assert!(matches!(decode(&mut buffer), Err(RespError::InvalidProtocol)));
    assert_eq!(buffer.len(), 9);
}

#[test]
fn array_child_error_is_reported() {
    let mut buffer = BytesMut::from("*2\r\n:1\r\n:x\r\n");
    assert!(matches!(decode(&mut buffer), Err(RespError::IntError)));
    assert_eq!(buffer.len(), 12);
}

#[test]
fn line_end_found_anywhere() {
    let mut buffer = BytesMut::from("+a\rb\nc\r\n");
    match decode(&mut buffer).unwrap() {
        Some(RespType::SimpleString(s)) => assert_eq!(s, "a\rb\nc"),
        other => panic!("got {:?}", other),
    }
}

#[test]
fn decimal_text_shapes() {
    assert_eq!(parse_decimal(b"+7"), Some(7));
    assert_eq!(parse_decimal(b"-0"), Some(0));
    assert_eq!(parse_decimal(b"007"), Some(7));
    assert_eq!(parse_decimal(b"-"), None);
    assert_eq!(parse_decimal(b"+"), None);
    assert_eq!(parse_decimal(b""), None);
    assert_eq!(parse_decimal(b"1 "), None);
    assert_eq!(parse_decimal(b"99999999999999999999999"), None);
    let mut out = b"x".to_vec();
    push_decimal(&mut out, -9051);
    assert_eq!(out, b"x-9051");
}

#[test]
fn round_trip_simple_string_with_lone_line_end_bytes() {
    for text in ["a\rb", "a\nb", "ends with cr\r", "\n\r"] {
        match read_back(RespType::SimpleString(text.to_string())) {
            RespType::SimpleString(s) => assert_eq!(s, text),
            other => panic!("got {:?}", other),
        }
    }
}
