//! End-to-end request handling over the streaming codec, the three
//! distinct nulls, incomplete and invalid input, and the laws the
//! library states, tried on concrete values.
use simple_redis::{
    Backend, BulkString, RespArray, RespCodec, RespEncode, RespError, RespFrame, RespMap, RespNull,
    SimpleString,
};

/// Feed one request through codec and backend, returning the reply bytes.
fn roundtrip(backend: &mut Backend, codec: &mut RespCodec, input: &[u8]) -> Vec<u8> {
    codec.feed(input);
    let frame = codec.next_frame().unwrap().unwrap();
    let response = backend.handle(frame);
    let mut out = Vec::new();
    codec.encode(response, &mut out);
    out
}

#[test]
fn test_get_on_empty_store() {
    let mut backend = Backend::new();
    let mut codec = RespCodec::new();
    let out = roundtrip(&mut backend, &mut codec, b"*2\r\n$3\r\nget\r\n$3\r\nkey\r\n");
    assert_eq!(out, b"_\r\n");
}

#[test]
fn test_set_then_get() {
    let mut backend = Backend::new();
    let mut codec = RespCodec::new();
    let out = roundtrip(
        &mut backend,
        &mut codec,
        b"*3\r\n$3\r\nset\r\n$3\r\nkey\r\n$5\r\nhello\r\n",
    );
    assert_eq!(out, b"+OK\r\n");
    let out = roundtrip(&mut backend, &mut codec, b"*2\r\n$3\r\nget\r\n$3\r\nkey\r\n");
    assert_eq!(out, b"$5\r\nhello\r\n");
}

#[test]
fn test_echo_request() {
    let mut backend = Backend::new();
    let mut codec = RespCodec::new();
    let out = roundtrip(&mut backend, &mut codec, b"*2\r\n$4\r\necho\r\n$5\r\nhello\r\n");
    assert_eq!(out, b"$5\r\nhello\r\n");
}

#[test]
fn test_hset_then_hmget() {
    let mut backend = Backend::new();
    let mut codec = RespCodec::new();
    let out = roundtrip(
        &mut backend,
        &mut codec,
        b"*4\r\n$4\r\nhset\r\n$3\r\nkey\r\n$6\r\nfield1\r\n$2\r\nv1\r\n",
    );
    assert_eq!(out, b"+OK\r\n");
    let out = roundtrip(
        &mut backend,
        &mut codec,
        b"*4\r\n$4\r\nhset\r\n$3\r\nkey\r\n$6\r\nfield2\r\n$2\r\nv2\r\n",
    );
    assert_eq!(out, b"+OK\r\n");
    let out = roundtrip(
        &mut backend,
        &mut codec,
        b"*4\r\n$5\r\nhmget\r\n$3\r\nkey\r\n$6\r\nfield1\r\n$6\r\nfield2\r\n",
    );
    assert_eq!(out, b"*2\r\n$2\r\nv1\r\n$2\r\nv2\r\n");
}

#[test]
fn test_sadd_counts_new_members() {
    let mut backend = Backend::new();
    let mut codec = RespCodec::new();
    let out = roundtrip(&mut backend, &mut codec, b"*3\r\n$4\r\nsadd\r\n$3\r\nkey\r\n$2\r\nm1\r\n");
    assert_eq!(out, b":+1\r\n");
    let out = roundtrip(
        &mut backend,
        &mut codec,
        b"*5\r\n$4\r\nsadd\r\n$3\r\nkey\r\n$2\r\nm1\r\n$2\r\nm2\r\n$2\r\nm3\r\n",
    );
    assert_eq!(out, b":+2\r\n");
}

#[test]
fn test_sadd_existing_member_counts_zero() {
    let mut backend = Backend::new();
    let mut codec = RespCodec::new();
    let out = roundtrip(&mut backend, &mut codec, b"*3\r\n$4\r\nsadd\r\n$3\r\nkey\r\n$2\r\nm1\r\n");
    assert_eq!(out, b":+1\r\n");
    let out = roundtrip(&mut backend, &mut codec, b"*3\r\n$4\r\nsadd\r\n$3\r\nkey\r\n$2\r\nm1\r\n");
    assert_eq!(out, b":+0\r\n");
    let out = roundtrip(
        &mut backend,
        &mut codec,
        b"*3\r\n$9\r\nsismember\r\n$3\r\nkey\r\n$2\r\nm1\r\n",
    );
    assert_eq!(out, b":+1\r\n");
}

#[test]
fn test_truncated_request_waits_for_more() {
    let mut backend = Backend::new();
    let mut codec = RespCodec::new();
    codec.feed(b"*3\r\n$3\r\nset\r\n$3\r\nkey\r\n");
    assert_eq!(codec.next_frame().unwrap(), None);
    codec.feed(b"$5\r\nhello\r\n");
    let frame = codec.next_frame().unwrap().unwrap();
    let response = backend.handle(frame);
    let mut out = Vec::new();
    codec.encode(response, &mut out);
    assert_eq!(out, b"+OK\r\n");
}

#[test]
fn test_nulls_are_distinct() {
    let (bulk_null, _) = RespFrame::decode(b"$-1\r\n").unwrap();
    let (array_null, _) = RespFrame::decode(b"*-1\r\n").unwrap();
    let (null, _) = RespFrame::decode(b"_\r\n").unwrap();
    assert_ne!(bulk_null, array_null);
    assert_ne!(bulk_null, null);
    assert_ne!(array_null, null);
    assert_eq!(null, RespFrame::Null(RespNull::new()));
}

#[test]
fn test_unsupported_prefix_is_invalid() {
    let err = RespFrame::decode(b"^foo\r\n").unwrap_err();
    match err {
        RespError::RespInvalid(_) => {}
        other => panic!("expected an invalid-prefix error, got {:?}", other),
    }
    assert_ne!(RespFrame::decode(b"^foo\r\n").unwrap_err(), RespError::RespNotComplete);
}

#[test]
fn test_invalid_bool_and_null_payloads() {
    let err = RespFrame::decode(b"#x\r\n").unwrap_err();
    assert_eq!(err, RespError::RespInvalid(b"Invalid bool".to_vec()));
    let err = RespFrame::decode(b"_x\r\n").unwrap_err();
    assert_eq!(err, RespError::RespInvalid(b"Invalid null".to_vec()));
    let err = RespFrame::decode(b":12a\r\n").unwrap_err();
    assert_eq!(err, RespError::RespParseError { typ: b"i64".to_vec(), data: b"12a".to_vec() });
    let err = RespFrame::decode(b"$x\r\n").unwrap_err();
    assert_eq!(err, RespError::RespInvalid(b"Invalid length".to_vec()));
}

#[test]
fn test_map_key_must_be_simple_string() {
    let err = RespFrame::decode(b"%1\r\n:1\r\n:2\r\n").unwrap_err();
    assert_eq!(err, RespError::RespInvalid(b"map key must be simple string".to_vec()));

    let err = RespFrame::decode(b"%1\r\n+k\r\n#x\r\n").unwrap_err();
    match err {
        RespError::RespWrappedError { typ, err } => {
            assert_eq!(typ, b"array".to_vec());
            assert_eq!(*err, RespError::RespInvalid(b"Invalid bool".to_vec()));
        }
        other => panic!("expected a wrapped error, got {:?}", other),
    }
}

#[test]
fn test_map_not_complete_translation() {
    let e = RespError::RespIsEmpty.map_not_complete();
    assert_eq!(e, RespError::RespNotComplete);
    let e = RespError::RespNotComplete.map_not_complete();
    assert_eq!(e, RespError::RespNotComplete);
    let e = RespError::RespInvalid(b"Invalid bool".to_vec()).map_not_complete();
    assert_eq!(
        e,
        RespError::RespWrappedError {
            typ: b"array".to_vec(),
            err: Box::new(RespError::RespInvalid(b"Invalid bool".to_vec())),
        }
    );
}

#[test]
fn test_error_reply_keeps_connection_message() {
    let mut backend = Backend::new();
    let mut codec = RespCodec::new();
    let out = roundtrip(&mut backend, &mut codec, b"*0\r\n");
    assert_eq!(out, b"-Command Err: Invalid command empty command\r\n");
    let out = roundtrip(&mut backend, &mut codec, b"*2\r\n$7\r\nunknown\r\n$3\r\nkey\r\n");
    assert_eq!(out, b"+OK\r\n");
}

#[test]
fn test_round_trip_every_kind() {
    let mut map = RespMap::new();
    map.insert(b"foo".to_vec(), RespFrame::Integer(-7));
    map.insert(b"bar".to_vec(), RespFrame::Boolean(true));
    let frames = vec![
        RespFrame::SimpleString(SimpleString::new(b"hello".to_vec())),
        RespFrame::Error(simple_redis::SimpleError::new(b"oops".to_vec())),
        RespFrame::Integer(0),
        RespFrame::Integer(i64::MIN),
        RespFrame::Integer(i64::MAX),
        RespFrame::BulkString(BulkString::new(Vec::new())),
        RespFrame::BulkString(BulkString::new_null()),
        RespFrame::Null(RespNull::new()),
        RespFrame::Boolean(false),
        RespFrame::Double(b"-2.3e-8".to_vec()),
        RespFrame::MapData(map),
        RespFrame::SetData(simple_redis::RespSet::with_vec(vec![
            RespFrame::Integer(1),
            RespFrame::SimpleString(SimpleString::new(b"x".to_vec())),
        ])),
        RespFrame::Array(RespArray::new_null()),
        RespFrame::Array(RespArray::with_vec(vec![
            RespFrame::Array(RespArray::with_vec(vec![RespFrame::Integer(5)])),
            RespFrame::BulkString(BulkString::new(b"deep".to_vec())),
        ])),
    ];
    for f in frames {
        let bytes = f.encode();
        let (back, used) = RespFrame::decode(bytes.as_slice()).unwrap();
        assert_eq!(used, bytes.len());
        assert_eq!(back, f);
    }
}

#[test]
fn test_every_strict_prefix_is_incomplete() {
    let frames = vec![
        RespFrame::SimpleString(SimpleString::new(b"hi".to_vec())),
        RespFrame::Integer(-42),
        RespFrame::BulkString(BulkString::new(b"abc".to_vec())),
        RespFrame::Array(RespArray::with_vec(vec![
            RespFrame::Integer(1),
            RespFrame::SimpleString(SimpleString::new(b"x".to_vec())),
        ])),
    ];
    for f in frames {
        let bytes = f.encode();
        for cut in 0..bytes.len() {
            let res = RespFrame::decode(&bytes[..cut]);
            assert_eq!(res.unwrap_err(), RespError::RespNotComplete);
        }
    }
}

#[test]
fn test_zero_length_values() {
    let (f, used) = RespFrame::decode(b"*0\r\n").unwrap();
    assert_eq!(used, 4);
    assert_eq!(f, RespFrame::Array(RespArray::new()));
    let (f, used) = RespFrame::decode(b"$0\r\n\r\n").unwrap();
    assert_eq!(used, 6);
    assert_eq!(f, RespFrame::BulkString(BulkString::new(Vec::new())));
}

#[test]
fn test_set_idempotent_on_wire() {
    let mut backend = Backend::new();
    let mut codec = RespCodec::new();
    let req = b"*3\r\n$3\r\nset\r\n$3\r\nkey\r\n$5\r\nhello\r\n";
    assert_eq!(roundtrip(&mut backend, &mut codec, req), b"+OK\r\n");
    assert_eq!(roundtrip(&mut backend, &mut codec, req), b"+OK\r\n");
    let out = roundtrip(&mut backend, &mut codec, b"*2\r\n$3\r\nget\r\n$3\r\nkey\r\n");
    assert_eq!(out, b"$5\r\nhello\r\n");
}

#[test]
fn test_sadd_order_does_not_matter() {
    let reqs: [&[u8]; 2] = [
        b"*4\r\n$4\r\nsadd\r\n$1\r\nk\r\n$1\r\na\r\n$1\r\nb\r\n",
        b"*4\r\n$4\r\nsadd\r\n$1\r\nk\r\n$1\r\nb\r\n$1\r\nc\r\n",
    ];
    let mut finals = Vec::new();
    for order in [[0, 1], [1, 0]] {
        let mut backend = Backend::new();
        let mut codec = RespCodec::new();
        for i in order {
            roundtrip(&mut backend, &mut codec, reqs[i]);
        }
        let mut answers = Vec::new();
        for m in [&b"a"[..], b"b", b"c"] {
            let mut req = b"*3\r\n$9\r\nsismember\r\n$1\r\nk\r\n$1\r\n".to_vec();
            req.extend_from_slice(m);
            req.extend_from_slice(b"\r\n");
            answers.push(roundtrip(&mut backend, &mut codec, &req));
        }
        finals.push(answers);
    }
    assert_eq!(finals[0], finals[1]);
    assert_eq!(finals[0], vec![b":+1\r\n".to_vec(), b":+1\r\n".to_vec(), b":+1\r\n".to_vec()]);
}

#[test]
fn test_key_must_be_utf8() {
    let mut backend = Backend::new();
    let mut codec = RespCodec::new();
    let mut req = b"*2\r\n$3\r\nget\r\n$3\r\n".to_vec();
    req.extend_from_slice(&[0xff, 0xfe, 0xfd]);
    req.extend_from_slice(b"\r\n");
    let out = roundtrip(&mut backend, &mut codec, &req);
    assert_eq!(out, b"-Command Err: Invalid type invalid utf-8\r\n");
}

#[test]
fn test_hmget_rejects_non_string_field() {
    let mut backend = Backend::new();
    let mut codec = RespCodec::new();
    let out = roundtrip(
        &mut backend,
        &mut codec,
        b"*5\r\n$5\r\nhmget\r\n$3\r\nkey\r\n$6\r\nfield1\r\n:5\r\n$6\r\nfield2\r\n",
    );
    assert_eq!(out, b"-Command Err: Invalid type Not support to string\r\n");
}

#[test]
fn test_sadd_rejects_non_string_member() {
    let mut backend = Backend::new();
    let mut codec = RespCodec::new();
    let out = roundtrip(
        &mut backend,
        &mut codec,
        b"*4\r\n$4\r\nsadd\r\n$3\r\nkey\r\n$2\r\nm1\r\n$-1\r\n",
    );
    assert_eq!(out, b"-Command Err: Invalid type BulkString is null\r\n");
    let out = roundtrip(
        &mut backend,
        &mut codec,
        b"*3\r\n$9\r\nsismember\r\n$3\r\nkey\r\n$2\r\nm1\r\n",
    );
    assert_eq!(out, b":+0\r\n");
}

#[test]
fn test_double_special_values_decode() {
    for repr in [&b"inf"[..], b"-inf", b"Infinity", b"nan", b"3.", b".5", b"+4e+2"] {
        let mut data = b",".to_vec();
        data.extend_from_slice(repr);
        data.extend_from_slice(b"\r\n");
        let (f, used) = RespFrame::decode(&data).unwrap();
        assert_eq!(used, data.len());
        assert_eq!(f, RespFrame::Double(repr.to_vec()));
        assert!(String::from_utf8(repr.to_vec()).unwrap().parse::<f64>().is_ok());
    }
    for repr in [&b"1.2.3"[..], b"e5", b".", b"1e", b"++1", b"in"] {
        let mut data = b",".to_vec();
        data.extend_from_slice(repr);
        data.extend_from_slice(b"\r\n");
        let err = RespFrame::decode(&data).unwrap_err();
        assert!(matches!(err, RespError::RespParseError { .. }));
        assert!(String::from_utf8(repr.to_vec()).unwrap().parse::<f64>().is_err());
    }
}

#[test]
fn test_incremental_map_decode() {
    let full = b"%2\r\n+foo\r\n$3\r\nbar\r\n+hello\r\n$5\r\nworld\r\n";
    for cut in 0..full.len() {
        assert_eq!(RespFrame::decode(&full[..cut]).unwrap_err(), RespError::RespNotComplete);
    }
    let (f, used) = RespFrame::decode(full).unwrap();
    assert_eq!(used, full.len());
    assert_eq!(f.encode(), full.to_vec());
}

#[test]
fn test_integer_bounds_round_trip() {
    let data = b":-9223372036854775808\r\n";
    let (f, _) = RespFrame::decode(data).unwrap();
    assert_eq!(f, RespFrame::Integer(i64::MIN));
    let data = b":+9223372036854775807\r\n";
    let (f, _) = RespFrame::decode(data).unwrap();
    assert_eq!(f, RespFrame::Integer(i64::MAX));
    let data = b":9223372036854775808\r\n";
    let err = RespFrame::decode(data).unwrap_err();
    assert!(matches!(err, RespError::RespParseError { .. }));
}
