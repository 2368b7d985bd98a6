use resp::{
    BulkString, FloatWrapper, RespArray, RespEncode, RespFrame, RespMap, RespNull, RespNullArray,
    RespNullBulkString, RespSet, SimpleError, SimpleString,
};

fn double(negative: bool, mantissa: u64, exponent: i32) -> RespFrame {
    RespFrame::Double(FloatWrapper::new(negative, mantissa, exponent).unwrap())
}

fn sample_array() -> RespFrame {
    RespFrame::Array(RespArray::new(vec![
        RespFrame::SimpleString(SimpleString::new("hello world")),
        RespFrame::Integer(123),
        RespFrame::BulkString(BulkString::new("hello world".as_bytes())),
    ]))
}

#[test]
fn test_simple_string_encode() {
    let frame = RespFrame::SimpleString(SimpleString::new("hello world"));
    assert_eq!(frame.encode(), b"+hello world\r\n");
}

#[test]
fn test_simple_error_encode() {
    let frame = RespFrame::Error(SimpleError::new("hello world"));
    assert_eq!(frame.encode(), b"-hello world\r\n");
}

#[test]
fn test_integer_encode() {
    let frame = RespFrame::Integer(123);
    assert_eq!(frame.encode(), b":+123\r\n");

    let frame = RespFrame::Integer(-123);
    assert_eq!(frame.encode(), b":-123\r\n");
}

#[test]
fn test_bulk_string_encode() {
    let frame = RespFrame::BulkString(BulkString::new("hello world".as_bytes()));
    assert_eq!(frame.encode(), b"$11\r\nhello world\r\n");
}

#[test]
fn test_null_bulk_string_encode() {
    let frame = RespFrame::NullBulkString(RespNullBulkString);
    assert_eq!(frame.encode(), b"$-1\r\n");
}

#[test]
fn test_array_encode() {
    assert_eq!(
        sample_array().encode(),
        b"*3\r\n+hello world\r\n:+123\r\n$11\r\nhello world\r\n"
    );
}

#[test]
fn test_null_array_encode() {
    let frame = RespFrame::NullArray(RespNullArray);
    assert_eq!(frame.encode(), b"*-1\r\n");
}

#[test]
fn test_null_encode() {
    let frame = RespFrame::Null(RespNull);
    assert_eq!(frame.encode(), b"_\r\n");
}

#[test]
fn test_boolean_encode() {
    let frame = RespFrame::Boolean(true);
    assert_eq!(frame.encode(), b"#t\r\n");

    let frame = RespFrame::Boolean(false);
    assert_eq!(frame.encode(), b"#f\r\n");
}

#[test]
fn test_double_encode() {
    assert_eq!(double(false, 123456, -3).encode(), b",+123.456\r\n");
    assert_eq!(double(true, 123456, -3).encode(), b",-123.456\r\n");
    assert_eq!(double(false, 123456789, 0).encode(), b",+1.23456789e8\r\n");
}

#[test]
fn test_map_encode() {
    let mut map = RespMap::new_map();
    map.insert(
        "hello".to_string(),
        RespFrame::SimpleString(SimpleString::new("world")),
    );
    map.insert("number".to_string(), RespFrame::Integer(123));
    map.insert(
        "bulk".to_string(),
        RespFrame::BulkString(BulkString::new("hello world".as_bytes())),
    );
    let frame = RespFrame::RespMap(map);
    assert_eq!(
        frame.encode(),
        b"%3\r\n+bulk\r\n$11\r\nhello world\r\n+hello\r\n+world\r\n+number\r\n:+123\r\n"
    );
}

#[test]
fn test_set_encode() {
    let frame = RespFrame::RespSet(RespSet::new(vec![
        RespFrame::SimpleString(SimpleString::new("hello")),
        RespFrame::Integer(123),
    ]));
    assert_eq!(frame.encode(), b"~2\r\n+hello\r\n:+123\r\n");
}

#[test]
fn test_resp_encode() {
    assert_eq!(
        sample_array().encode(),
        b"*3\r\n+hello world\r\n:+123\r\n$11\r\nhello world\r\n"
    );
}

#[test]
fn test_resp_encode_null() {
    assert_eq!(RespNull.encode(), b"_\r\n");
}

#[test]
fn test_resp_encode_null_array() {
    assert_eq!(RespNullArray.encode(), b"*-1\r\n");
}

#[test]
fn test_resp_encode_null_bulk_string() {
    assert_eq!(RespNullBulkString.encode(), b"$-1\r\n");
}

#[test]
fn test_resp_encode_simple_string() {
    assert_eq!(SimpleString::new("hello world").encode(), b"+hello world\r\n");
}

#[test]
fn test_resp_encode_simple_error() {
    assert_eq!(SimpleError::new("hello world").encode(), b"-hello world\r\n");
}
