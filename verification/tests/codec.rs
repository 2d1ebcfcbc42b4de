use passage::object::{parse, Error, Object};

#[test]
fn object_parse_simple_string_ok() {
    let bytes: &[u8] = b"+Hello world\r\n";
    let mut pos: usize = 0;
    let o = parse(bytes, &mut pos).unwrap();
    assert!(matches!(o, Object::SimpleString(_)));
    if let Object::SimpleString(s) = o {
        assert_eq!(s, "Hello world".to_string());
    }
}

#[test]
fn object_parse_simple_string_incomplete() {
    let bytes: &[u8] = b"+Hello world";
    let mut pos: usize = 0;
    let o = parse(bytes, &mut pos);
    assert!(matches!(o, Err(Error::Incomplete)));

    let bytes: &[u8] = b"+Hello world\r";
    let mut pos: usize = 0;
    let o = parse(bytes, &mut pos);
    assert!(matches!(o, Err(Error::Incomplete)));
}

#[test]
fn object_parse_error_ok() {
    let bytes: &[u8] = b"-Error: Something went wrong\r\n";
    let mut pos: usize = 0;
    let o = parse(bytes, &mut pos).unwrap();
    assert!(matches!(o, Object::Error(_)));
    if let Object::Error(s) = o {
        assert_eq!(s, "Error: Something went wrong".to_string());
    }
}

#[test]
fn object_parse_error_incomplete() {
    let bytes: &[u8] = b"-Hello world";
    let mut pos: usize = 0;
    let o = parse(bytes, &mut pos);
    assert!(matches!(o, Err(Error::Incomplete)));

    let bytes: &[u8] = b"-Hello world\r";
    let mut pos: usize = 0;
    let o = parse(bytes, &mut pos);
    assert!(matches!(o, Err(Error::Incomplete)));
}

#[test]
fn object_parse_integer_positive_ok() {
    let bytes: &[u8] = b":1234567890\r\n";
    let mut pos: usize = 0;
    let o = parse(bytes, &mut pos).unwrap();
    assert!(matches!(o, Object::Integer(_)));
    if let Object::Integer(int) = o {
        assert_eq!(int, 1234567890);
    }
}

#[test]
fn object_parse_integer_negative_ok() {
    let bytes: &[u8] = b":-1234567890\r\n";
    let mut pos: usize = 0;
    let o = parse(bytes, &mut pos).unwrap();
    assert!(matches!(o, Object::Integer(_)));
    if let Object::Integer(int) = o {
        assert_eq!(int, -1234567890);
    }
}

#[test]
fn object_parse_array_ok() {
    let bytes: &[u8] = b"*2\r\n+Hello world\r\n+Goodbye world\r\n";
    let mut pos: usize = 0;
    let o = parse(bytes, &mut pos).unwrap();
    assert!(matches!(o, Object::Array(_)));
    if let Object::Array(a) = o {
        assert_eq!(a.len(), 2);
        assert!(matches!(a[0], Object::SimpleString(_)));
        assert!(matches!(a[1], Object::SimpleString(_)));
    }
}

#[test]
fn parse_bulk_some_ok() {
    let bytes: &[u8] = b"$11\r\nHello world\r\n";
    let mut pos: usize = 0;
    let o = parse(bytes, &mut pos).unwrap();
    assert!(matches!(o, Object::BulkString(_)));
    if let Object::BulkString(Some(s)) = o {
        assert_eq!(s, "Hello world".to_string().into_bytes());
    }
}

#[test]
fn parse_bulk_none_ok() {
    let bytes: &[u8] = b"$-1\r\n";
    let mut pos: usize = 0;
    let o = parse(bytes, &mut pos).unwrap();
    assert!(matches!(o, Object::BulkString(None)));
}

#[test]
fn object_into_vec_simple_string() {
    let obj = Object::SimpleString("OK".to_string());
    let bytes: Vec<u8> = obj.into_bytes();
    assert_eq!(String::from_utf8(bytes).unwrap(), "+OK\r\n");
}

#[test]
fn object_into_vec_error() {
    let obj = Object::Error("ERR".to_string());
    let bytes: Vec<u8> = obj.into_bytes();
    assert_eq!(String::from_utf8(bytes).unwrap(), "-ERR\r\n");
}

#[test]
fn object_into_vec_integer() {
    let obj = Object::Integer(313);
    let bytes: Vec<u8> = obj.into_bytes();
    assert_eq!(String::from_utf8(bytes).unwrap(), ":313\r\n");
}

#[test]
fn object_into_vec_bulk_string() {
    let obj = Object::BulkString(None);
    let bytes: Vec<u8> = obj.into_bytes();
    assert_eq!(String::from_utf8(bytes).unwrap(), "$-1\r\n");

    let obj = Object::BulkString(Some("".to_string().into_bytes()));
    let bytes: Vec<u8> = obj.into_bytes();
    assert_eq!(String::from_utf8(bytes).unwrap(), "$0\r\n\r\n");

    let obj = Object::BulkString(Some("Test".to_string().into_bytes()));
    let bytes: Vec<u8> = obj.into_bytes();
    assert_eq!(String::from_utf8(bytes).unwrap(), "$4\r\nTest\r\n");
}

#[test]
fn object_into_vec_array() {
    let mut inner = Vec::new();
    inner.push(Object::SimpleString("First".to_string()));
    inner.push(Object::SimpleString("Second".to_string()));
    let obj = Object::Array(inner);
    let bytes: Vec<u8> = obj.into_bytes();
    assert_eq!(String::from_utf8(bytes).unwrap(), "*2\r\n+First\r\n+Second\r\n");
}

#[test]
fn round_trip_nested_array() {
    let mut inner = Vec::new();
    inner.push(Object::SimpleString("head".to_string()));
    inner.push(Object::Integer(-42));
    inner.push(Object::BulkString(Some(b"pay\r\nload".to_vec())));
    inner.push(Object::BulkString(None));
    let mut outer = Vec::new();
    outer.push(Object::Array(inner));
    outer.push(Object::Error("oops".to_string()));
    let obj = Object::Array(outer);
    let bytes = obj.into_bytes();
    let mut pos: usize = 0;
    let back = parse(&bytes, &mut pos).unwrap();
    assert_eq!(pos, bytes.len());
    assert_eq!(back.into_bytes(), bytes);
}

#[test]
fn round_trip_extreme_integers() {
    for n in [i64::MIN, -1, 0, 1, i64::MAX] {
        let bytes = Object::Integer(n).into_bytes();
        let mut pos: usize = 0;
        let back = parse(&bytes, &mut pos).unwrap();
        assert_eq!(pos, bytes.len());
        assert!(matches!(back, Object::Integer(m) if m == n));
    }
}

#[test]
fn parse_progress_on_prefixes() {
    let full: &[u8] = b"*2\r\n+get\r\n$5\r\ndrink\r\n";
    for cut in 0..full.len() {
        let mut pos: usize = 0;
        let o = parse(&full[..cut], &mut pos);
        assert!(matches!(o, Err(Error::Incomplete)));
        assert_eq!(pos, 0);
    }
    let mut pos: usize = 0;
    assert!(parse(full, &mut pos).is_ok());
    assert_eq!(pos, full.len());
}

#[test]
fn parse_trailing_bytes_left_alone() {
    let bytes: &[u8] = b"+one\r\n+two\r\n";
    let mut pos: usize = 0;
    let first = parse(bytes, &mut pos).unwrap();
    assert!(matches!(first, Object::SimpleString(s) if s == "one"));
    assert_eq!(pos, 6);
    let second = parse(bytes, &mut pos).unwrap();
    assert!(matches!(second, Object::SimpleString(s) if s == "two"));
    assert_eq!(pos, 12);
}

#[test]
fn parse_invalid_type_byte() {
    let bytes: &[u8] = b"#oops\r\n";
    let mut pos: usize = 0;
    let o = parse(bytes, &mut pos);
    assert!(matches!(o, Err(Error::InvalidInput)));
    assert_eq!(pos, 1);
}

#[test]
fn parse_integer_overflow_rejected() {
    let bytes: &[u8] = b":99999999999999999999\r\n";
    let mut pos: usize = 0;
    let o = parse(bytes, &mut pos);
    assert!(matches!(o, Err(Error::InvalidInput)));
}

#[test]
fn parse_bad_bulk_length_rejected() {
    let bytes: &[u8] = b"$-2\r\n";
    let mut pos: usize = 0;
    let o = parse(bytes, &mut pos);
    assert!(matches!(o, Err(Error::InvalidInput)));

    let bytes: &[u8] = b"*-1\r\n";
    let mut pos: usize = 0;
    let o = parse(bytes, &mut pos);
    assert!(matches!(o, Err(Error::InvalidInput)));
}

#[test]
fn parse_empty_is_incomplete() {
    let bytes: &[u8] = b"";
    let mut pos: usize = 0;
    let o = parse(bytes, &mut pos);
    assert!(matches!(o, Err(Error::Incomplete)));
}
