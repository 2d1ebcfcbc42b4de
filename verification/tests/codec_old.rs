use passage::objects::{parse, Error, Object};

#[test]
fn objects_parse_simple_string_ok() {
    let bytes: &[u8] = b"+Hello world\r\n";
    let mut pos: usize = 0;
    let o = parse(bytes, &mut pos).unwrap();
    assert!(matches!(o, Object::SimpleString(_)));
    if let Object::SimpleString(s) = o {
        assert_eq!(s, "Hello world".to_string());
    }
}

#[test]
fn objects_parse_simple_string_incomplete() {
    let bytes: &[u8] = b"+Hello world";
    let mut pos: usize = 0;
    let o = parse(bytes, &mut pos);
    assert!(matches!(o, Err(Error::Incomplete)));

    let bytes: &[u8] = b"+Hello world\r";
    let mut pos: usize = 0;
    let o = parse(bytes, &mut pos);
    assert!(matches!(o, Err(Error::Incomplete)));
}

#[test]
fn objects_parse_error_ok() {
    let bytes: &[u8] = b"-Error: Something went wrong\r\n";
    let mut pos: usize = 0;
    let o = parse(bytes, &mut pos).unwrap();
    assert!(matches!(o, Object::Error(_)));
    if let Object::Error(s) = o {
        assert_eq!(s, "Error: Something went wrong".to_string());
    }
}

#[test]
fn objects_parse_error_incomplete() {
    let bytes: &[u8] = b"-Hello world";
    let mut pos: usize = 0;
    let o = parse(bytes, &mut pos);
    assert!(matches!(o, Err(Error::Incomplete)));

    let bytes: &[u8] = b"-Hello world\r";
    let mut pos: usize = 0;
    let o = parse(bytes, &mut pos);
    assert!(matches!(o, Err(Error::Incomplete)));
}

#[test]
fn objects_parse_integer_positive_ok() {
    let bytes: &[u8] = b":1234567890\r\n";
    let mut pos: usize = 0;
    let o = parse(bytes, &mut pos).unwrap();
    assert!(matches!(o, Object::Integer(_)));
    if let Object::Integer(int) = o {
        assert_eq!(int, 1234567890);
    }
}

#[test]
fn objects_parse_integer_negative_ok() {
    let bytes: &[u8] = b":-1234567890\r\n";
    let mut pos: usize = 0;
    let o = parse(bytes, &mut pos).unwrap();
    assert!(matches!(o, Object::Integer(_)));
    if let Object::Integer(int) = o {
        assert_eq!(int, -1234567890);
    }
}

#[test]
fn objects_parse_array_ok() {
    let bytes: &[u8] = b"*2\r\n+Hello world\r\n+Goodbye world\r\n";
    let mut pos: usize = 0;
    let o = parse(bytes, &mut pos).unwrap();
    assert!(matches!(o, Object::Array(_)));
    if let Object::Array(a) = o {
        assert_eq!(a.len(), 2);
        assert!(matches!(a[0], Object::SimpleString(_)));
        assert!(matches!(a[1], Object::SimpleString(_)));
    }
}

#[test]
fn objects_parse_rejects_bulk_strings() {
    let bytes: &[u8] = b"$4\r\nTest\r\n";
    let mut pos: usize = 0;
    let o = parse(bytes, &mut pos);
    assert!(matches!(o, Err(Error::InvalidInput)));
    assert_eq!(pos, 1);

    let bytes: &[u8] = b"*1\r\n$4\r\nTest\r\n";
    let mut pos: usize = 0;
    let o = parse(bytes, &mut pos);
    assert!(matches!(o, Err(Error::InvalidInput)));
}
