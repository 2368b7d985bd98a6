use resp::{
    decode, BulkString, DecodeError, FloatWrapper, RespArray, RespDecode, RespEncode, RespFrame,
    RespMap, RespNull, RespNullArray, RespNullBulkString, RespSet, SimpleError, SimpleString,
};

fn samples() -> Vec<RespFrame> {
    let mut map = RespMap::new_map();
    map.insert("hello".to_string(), RespFrame::SimpleString(SimpleString::new("world")));
    map.insert("number".to_string(), RespFrame::Integer(123));
    map.insert(
        "bulk".to_string(),
        RespFrame::BulkString(BulkString::new("hello world".as_bytes())),
    );
    vec![
        RespFrame::SimpleString(SimpleString::new("hello world")),
        RespFrame::Error(SimpleError::new("ERR bad")),
        RespFrame::Integer(0),
        RespFrame::Integer(i64::MIN),
        RespFrame::Integer(i64::MAX),
        RespFrame::BulkString(BulkString::new(b"a\r\nb")),
        RespFrame::BulkString(BulkString::new(b"")),
        RespFrame::NullBulkString(RespNullBulkString),
        RespFrame::Null(RespNull),
        RespFrame::NullArray(RespNullArray),
        RespFrame::Boolean(true),
        RespFrame::Boolean(false),
        RespFrame::Double(FloatWrapper::new(false, 123456789, 0).unwrap()),
        RespFrame::Double(FloatWrapper::new(true, 123456, -3).unwrap()),
        RespFrame::Double(FloatWrapper::new(false, 25, -4).unwrap()),
        RespFrame::Double(FloatWrapper::new(true, 15, 20).unwrap()),
        RespFrame::Double(FloatWrapper::new(false, 0, 0).unwrap()),
        RespFrame::Array(RespArray::new(vec![
            RespFrame::SimpleString(SimpleString::new("hello world")),
            RespFrame::Integer(123),
            RespFrame::Array(RespArray::new(vec![RespFrame::Null(RespNull)])),
        ])),
        RespFrame::Array(RespArray::new(vec![])),
        RespFrame::RespMap(map),
        RespFrame::RespSet(RespSet::new(vec![
            RespFrame::Integer(7),
            RespFrame::SimpleString(SimpleString::new("x")),
        ])),
    ]
}

#[test]
fn decode_inverts_encode() {
    for (frame, copy) in samples().into_iter().zip(samples()) {
        let bytes = frame.encode();
        assert_eq!(decode(&bytes), Ok((copy, bytes.len())));
    }
}

#[test]
fn every_proper_prefix_is_incomplete() {
    for frame in samples() {
        let bytes = frame.encode();
        for k in 0..bytes.len() {
            assert_eq!(decode(&bytes[..k]), Err(DecodeError::Incomplete), "prefix {}", k);
        }
    }
}

#[test]
fn split_feeding_matches_single_feeding() {
    for frame in samples() {
        let bytes = frame.encode();
        let whole = decode(&bytes);
        for k in 0..bytes.len() {
            let mut buffer: Vec<u8> = bytes[..k].to_vec();
            assert_eq!(decode(&buffer), Err(DecodeError::Incomplete));
            buffer.extend_from_slice(&bytes[k..]);
            assert_eq!(decode(&buffer), whole);
        }
    }
}

#[test]
fn decode_stops_after_one_frame() {
    let bytes = b"_\r\n:+5\r\n";
    assert_eq!(decode(bytes), Ok((RespFrame::Null(RespNull), 3)));
    assert_eq!(decode(&bytes[3..]), Ok((RespFrame::Integer(5), 5)));
}

#[test]
fn decode_through_trait_on_vec() {
    let buf: Vec<u8> = b"#t\r\n".to_vec();
    assert_eq!(<Vec<u8> as RespDecode>::decode(&buf), Ok((RespFrame::Boolean(true), 4)));
}

#[test]
fn decode_reads_spec_scenarios() {
    assert_eq!(
        decode(b"$-1\r\n"),
        Ok((RespFrame::NullBulkString(RespNullBulkString), 5))
    );
    assert_eq!(decode(b"*-1\r\n"), Ok((RespFrame::NullArray(RespNullArray), 5)));
    assert_eq!(
        decode(b",+1.23456789e8\r\n"),
        Ok((RespFrame::Double(FloatWrapper::new(false, 123456789, 0).unwrap()), 16))
    );
}

#[test]
fn decode_rejects_malformed_input() {
    let cases: Vec<&[u8]> = vec![
        b"?x\r\n",
        b":123\r\n",
        b":-0\r\n",
        b":+01\r\n",
        b":+9223372036854775808\r\n",
        b"+a\rb\r\n",
        b"+a\nb\r\n",
        b"+\xff\r\n",
        b"$2\r\nabc\r\n",
        b"$x\r\n",
        b"*01\r\n_\r\n",
        b"#x\r\n",
        b"_x\r\n",
        b",+1.50\r\n",
        b",1.5\r\n",
        b"%2\r\n+b\r\n:+1\r\n+a\r\n:+2\r\n",
        b"%1\r\n:+1\r\n:+2\r\n",
        b"~2\r\n:+5\r\n+b\r\n",
        b"~2\r\n+b\r\n+b\r\n",
    ];
    for case in cases {
        assert_eq!(decode(case), Err(DecodeError::Malformed), "{:?}", case);
    }
}

#[test]
fn decode_waits_for_missing_bytes() {
    assert_eq!(decode(b""), Err(DecodeError::Incomplete));
    assert_eq!(decode(b"+hel"), Err(DecodeError::Incomplete));
    assert_eq!(decode(b"$3\r\nab\r\n"), Err(DecodeError::Incomplete));
    assert_eq!(decode(b"*2\r\n:+1\r\n"), Err(DecodeError::Incomplete));
}

#[test]
fn decode_reports_unsupported_types() {
    let cases: Vec<&[u8]> = vec![
        b"!3\r\nerr\r\n",
        b"=7\r\ntxt:abc\r\n",
        b"(12345678901234567890\r\n",
        b">1\r\n:+1\r\n",
        b"|0\r\n",
        b"*1\r\n(1\r\n",
    ];
    for case in cases {
        assert_eq!(decode(case), Err(DecodeError::UnsupportedType), "{:?}", case);
    }
}

#[test]
fn decode_reports_malformed_headers_and_payloads() {
    let cases: Vec<&[u8]> = vec![
        b"$abc\r\n",
        b"$5\r\nhelloXY",
        b"+\xff\xfe\r\n",
        b"@\r\n",
        b"~2\r\n:+10\r\n:+9\r\n",
    ];
    for case in cases {
        assert_eq!(decode(case), Err(DecodeError::Malformed), "{:?}", case);
    }
    assert_eq!(
        decode(b"~2\r\n:+9\r\n:+10\r\n").map(|(_, n)| n),
        Ok(15)
    );
}

#[test]
fn decode_reads_doubles_without_digits() {
    assert_eq!(
        decode(b",+inf\r\n"),
        Ok((RespFrame::Double(FloatWrapper::infinity(false)), 7))
    );
    assert_eq!(
        decode(b",-inf\r\n"),
        Ok((RespFrame::Double(FloatWrapper::infinity(true)), 7))
    );
    assert_eq!(decode(b",+NaN\r\n"), Ok((RespFrame::Double(FloatWrapper::nan()), 7)));
}

#[test]
fn decode_reports_malformed_container_headers() {
    let cases: Vec<&[u8]> = vec![b"*abc\r\n", b"~x\r\n", b"%-1\r\n", b"~-1\r\n", b"*+3\r\n"];
    for case in cases {
        assert_eq!(decode(case), Err(DecodeError::Malformed), "{:?}", case);
    }
}
