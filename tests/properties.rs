use resp::{
    BulkString, FloatWrapper, RespArray, RespEncode, RespFrame, RespMap, RespSet, SimpleString,
};

fn double(negative: bool, mantissa: u64, exponent: i32) -> Vec<u8> {
    FloatWrapper::new(negative, mantissa, exponent).unwrap().encode()
}

#[test]
fn integer_extremes_keep_explicit_sign() {
    assert_eq!(0i64.encode(), b":+0\r\n");
    assert_eq!(i64::MAX.encode(), b":+9223372036854775807\r\n");
    assert_eq!(i64::MIN.encode(), b":-9223372036854775808\r\n");
}

#[test]
fn double_plain_and_scientific_forms() {
    assert_eq!(double(false, 0, 0), b",+0\r\n");
    assert_eq!(double(false, 1, 8), b",+100000000\r\n");
    assert_eq!(double(false, 100000001, 0), b",+1.00000001e8\r\n");
    assert_eq!(double(false, 1, 9), b",+1e9\r\n");
    assert_eq!(double(true, 15, 20), b",-1.5e21\r\n");
    assert_eq!(double(false, 5, -1), b",+0.5\r\n");
    assert_eq!(double(false, 25, -4), b",+0.0025\r\n");
    assert_eq!(double(true, 7, 2), b",-700\r\n");
}

#[test]
fn double_rejects_non_canonical_forms() {
    assert!(FloatWrapper::new(false, 10, 0).is_none());
    assert!(FloatWrapper::new(false, 0, 3).is_none());
    assert!(FloatWrapper::new(false, 1, 401).is_none());
    assert!(FloatWrapper::new(false, 1, -400).is_some());
}

#[test]
fn empty_containers_and_payloads() {
    assert_eq!(BulkString::new(b"").encode(), b"$0\r\n\r\n");
    assert_eq!(RespArray::new(vec![]).encode(), b"*0\r\n");
    assert_eq!(RespMap::new_map().encode(), b"%0\r\n");
    assert_eq!(RespSet::new(vec![]).encode(), b"~0\r\n");
    assert_eq!(SimpleString::new("").encode(), b"+\r\n");
}

#[test]
fn encoding_twice_gives_identical_bytes() {
    let make = || {
        RespFrame::Array(RespArray::new(vec![
            RespFrame::Integer(-7),
            RespFrame::Boolean(true),
        ]))
    };
    assert_eq!(make().encode(), make().encode());
}

#[test]
fn map_insertion_order_does_not_change_encoding() {
    let mut a = RespMap::new_map();
    a.insert("x".to_string(), RespFrame::Integer(1));
    a.insert("a".to_string(), RespFrame::Integer(2));
    let mut b = RespMap::new_map();
    b.insert("a".to_string(), RespFrame::Integer(2));
    b.insert("x".to_string(), RespFrame::Integer(1));
    let ea = a.encode();
    assert_eq!(ea, b.encode());
    assert_eq!(ea, b"%2\r\n+a\r\n:+2\r\n+x\r\n:+1\r\n");
}

#[test]
fn map_insert_replaces_existing_key() {
    let mut m = RespMap::new_map();
    m.insert("k".to_string(), RespFrame::Integer(1));
    m.insert("k".to_string(), RespFrame::Integer(2));
    assert_eq!(m.encode(), b"%1\r\n+k\r\n:+2\r\n");
}

#[test]
fn set_order_and_duplicates_do_not_change_encoding() {
    let a = RespSet::new(vec![
        RespFrame::Integer(5),
        RespFrame::SimpleString(SimpleString::new("b")),
        RespFrame::Integer(5),
    ]);
    let b = RespSet::new(vec![
        RespFrame::SimpleString(SimpleString::new("b")),
        RespFrame::Integer(5),
    ]);
    let ea = a.encode();
    assert_eq!(ea, b.encode());
    assert_eq!(ea, b"~2\r\n+b\r\n:+5\r\n");
}

#[test]
fn set_members_follow_frame_order() {
    let s = RespSet::new(vec![
        RespFrame::Integer(10),
        RespFrame::Integer(9),
        RespFrame::Integer(-1),
    ]);
    assert_eq!(s.encode(), b"~3\r\n:-1\r\n:+9\r\n:+10\r\n");
    let s = RespSet::new(vec![
        RespFrame::BulkString(BulkString::new(b"a")),
        RespFrame::SimpleString(SimpleString::new("z")),
    ]);
    assert_eq!(s.encode(), b"~2\r\n+z\r\n$1\r\na\r\n");
}

#[test]
fn unit_encodes_as_null_bulk_string() {
    assert_eq!(().encode(), b"$-1\r\n");
}

#[test]
fn doubles_without_digits_encode() {
    assert_eq!(FloatWrapper::nan().encode(), b",+NaN\r\n");
    assert_eq!(FloatWrapper::infinity(false).encode(), b",+inf\r\n");
    assert_eq!(FloatWrapper::infinity(true).encode(), b",-inf\r\n");
}

#[test]
fn set_orders_doubles_by_bit_pattern() {
    let d = |n: bool, m: u64, e: i32| RespFrame::Double(FloatWrapper::new(n, m, e).unwrap());
    let s = RespSet::new(vec![d(false, 2, 0), d(false, 15, -1)]);
    assert_eq!(s.encode(), b"~2\r\n,+1.5\r\n,+2\r\n");
    let s = RespSet::new(vec![
        RespFrame::Double(FloatWrapper::nan()),
        d(true, 1, 0),
        RespFrame::Double(FloatWrapper::infinity(false)),
        d(false, 1, 3),
        d(true, 3, 0),
        d(false, 0, 0),
    ]);
    assert_eq!(
        s.encode(),
        b"~6\r\n,+0\r\n,+1000\r\n,+inf\r\n,+NaN\r\n,-1\r\n,-3\r\n"
    );
}
