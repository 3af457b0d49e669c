//! The wire forms of the frame kinds: encode, decode, the three nulls,
//! length enforcement, and incomplete input.
use simple_redis::{BulkString, RespArray, RespEncode, RespError, RespFrame, SimpleString};

#[test]
fn test_simple_string_encode() {
    let ss = SimpleString::new(b"hello world".to_vec());
    let res = ss.encode();
    assert_eq!(res, b"+hello world\r\n");
}

#[test]
fn test_simple_string_decode() {
    let data = b"+hello world\r\n";
    let (res, used) = SimpleString::decode(data).unwrap();
    assert_eq!(used, data.len());
    assert_eq!(res.encode(), b"+hello world\r\n");
}

#[test]
fn test_bulk_string_encode() {
    let bs = BulkString::new(b"hello world".to_vec());
    let res = bs.encode();
    assert_eq!(res, b"$11\r\nhello world\r\n");
    let bs2 = BulkString::new(b"hello world".to_vec());
    let res2 = bs2.encode();
    assert_eq!(res2, b"$11\r\nhello world\r\n");
}

#[test]
fn test_bulk_string_decode() {
    let data = b"$11\r\nhello world\r\n";
    let (res, used) = BulkString::decode(data).unwrap();
    assert_eq!(used, data.len());
    assert_eq!(res.encode(), b"$11\r\nhello world\r\n");

    let data = b"$10\r\nhello world\r\n";
    let res = BulkString::decode(data).unwrap_err();
    assert_eq!(res, RespError::RespNotEqualLength { expected: 10, decoded: 11 });
}

#[test]
fn test_bulk_string_decode_null() {
    let data = b"$-1\r\n";
    let (res, used) = BulkString::decode(data).unwrap();
    assert_eq!(used, data.len());
    assert_eq!(res.encode(), b"$-1\r\n");
}

#[test]
fn test_i64_encode() {
    let i: i64 = 123;
    let res = i.encode();
    assert_eq!(res, b":+123\r\n");

    let i: i64 = -123;
    let res = i.encode();
    assert_eq!(res, b":-123\r\n");
}

#[test]
fn test_i64_decode() {
    let data = b":123\r\n";
    let (res, used) = RespFrame::decode(data).unwrap();
    assert_eq!(used, data.len());
    assert_eq!(res.encode(), b":+123\r\n");

    let data = b":-123\r\n";
    let (res, used) = RespFrame::decode(data).unwrap();
    assert_eq!(used, data.len());
    assert_eq!(res.encode(), b":-123\r\n");
}

#[test]
fn test_double_encode() {
    let d = RespFrame::Double(b"1.0".to_vec());
    let res = d.encode();
    assert_eq!(res, b",1.0\r\n");
    let d2 = RespFrame::Double(b"-1.0".to_vec());
    let res2 = d2.encode();
    assert_eq!(res2, b",-1.0\r\n");
    let d3 = RespFrame::Double(b"1e-7".to_vec());
    let res3 = d3.encode();
    assert_eq!(res3, b",1e-7\r\n");

    let d3 = RespFrame::Double(b"-2.3e-8".to_vec());
    let res3 = d3.encode();
    assert_eq!(res3, b",-2.3e-8\r\n");
}

#[test]
fn test_double_decode() {
    let data = b",1.0\r\n";
    let (res, used) = RespFrame::decode(data).unwrap();
    assert_eq!(used, data.len());
    assert_eq!(res.encode(), b",1.0\r\n");

    let data = b",-1.0\r\n";
    let (res, used) = RespFrame::decode(data).unwrap();
    assert_eq!(used, data.len());
    assert_eq!(res.encode(), b",-1.0\r\n");

    let data = b",1e-7\r\n";
    let (res, used) = RespFrame::decode(data).unwrap();
    assert_eq!(used, data.len());
    assert_eq!(res.encode(), b",1e-7\r\n");

    let data = b",-2.3e-8\r\n";
    let (res, used) = RespFrame::decode(data).unwrap();
    assert_eq!(used, data.len());
    assert_eq!(res.encode(), b",-2.3e-8\r\n");

    let data = b",-asdf\r\n";
    let res = RespFrame::decode(data).unwrap_err();
    println!("{:?}", res);
    assert_eq!(
        res,
        RespError::RespParseError { typ: b"double".to_vec(), data: b"-asdf".to_vec() }
    );
}

#[test]
fn test_resp_array_encode() {
    let mut ra = RespArray::new();
    ra.try_push(RespFrame::Double(b"1.0".to_vec())).unwrap();
    ra.try_push(RespFrame::BulkString(BulkString::new(b"hello world".to_vec()))).unwrap();
    let res = ra.encode();
    println!("{:?}", String::from_utf8_lossy(res.as_slice()).to_string());
    assert_eq!(res, b"*2\r\n,1.0\r\n$11\r\nhello world\r\n");
}

#[test]
fn test_resp_array_decode() {
    let data = b"*2\r\n+hello\r\n+world\r\n";
    let (res, used) = RespArray::decode(data).unwrap();
    assert_eq!(used, data.len());
    assert_eq!(res.encode(), b"*2\r\n+hello\r\n+world\r\n");

    let data = b"*3\r\n+hello\r\n+world\r\n$11\r\nhello world\r\n";
    let (res, used) = RespArray::decode(data).unwrap();
    assert_eq!(used, data.len());
    assert_eq!(res.encode(), b"*3\r\n+hello\r\n+world\r\n$11\r\nhello world\r\n");

    let data = b"*3\r\n+hello\r\n$11\r\nhello world\r\n#t\r\n";
    let (res, used) = RespArray::decode(data).unwrap();
    assert_eq!(used, data.len());
    assert_eq!(res.encode(), b"*3\r\n+hello\r\n$11\r\nhello world\r\n#t\r\n");
}

#[test]
fn test_camp_array_decode() {
    let mut codec = simple_redis::RespCodec::new();
    codec.feed(b"*2\r\n$3\r\nset\r\n$5\r\nhello\r\n");

    let frame = codec.next_frame().unwrap().unwrap();
    assert_eq!(
        frame,
        RespFrame::Array(RespArray::with_vec(vec![
            RespFrame::BulkString(BulkString::new(b"set".to_vec())),
            RespFrame::BulkString(BulkString::new(b"hello".to_vec())),
        ]))
    );

    codec.feed(b"*2\r\n$3\r\nset\r\n");
    let ret = codec.next_frame().unwrap();
    assert_eq!(ret, None);

    codec.feed(b"$5\r\nhello\r\n");
    let frame = codec.next_frame().unwrap().unwrap();
    assert_eq!(
        frame,
        RespFrame::Array(RespArray::with_vec(vec![
            RespFrame::BulkString(BulkString::new(b"set".to_vec())),
            RespFrame::BulkString(BulkString::new(b"hello".to_vec())),
        ]))
    );
}

#[test]
fn test_resp_array_encode_null() {
    let ra = RespArray::new_null();
    let res = ra.encode();
    assert_eq!(res, b"*-1\r\n");
}

#[test]
fn test_resp_array_decode_null() {
    let data = b"*-1\r\n";
    let (res, used) = RespArray::decode(data).unwrap();
    assert_eq!(used, data.len());
    assert_eq!(res.encode(), b"*-1\r\n");
}

#[test]
fn test_resp_array_not_complete() {
    let data = b"*2\r\n+hello\r\n";
    let res = RespArray::decode(data);
    assert_eq!(res.unwrap_err(), RespError::RespNotComplete);

    let data = b"*2\r\n+hello\r";
    let res = RespArray::decode(data);
    assert_eq!(res.unwrap_err(), RespError::RespNotComplete);

    let data = b"*2\r\n+hello\r\n+abc";
    let res = RespArray::decode(data);
    assert_eq!(res.unwrap_err(), RespError::RespNotComplete);
}

#[test]
fn test_try_to_string() {
    let s1 = RespFrame::SimpleString(SimpleString::new(b"hello world".to_vec()));
    let res = s1.try_to_string().unwrap();
    assert_eq!(res, b"hello world".to_vec());

    let s2 = RespFrame::BulkString(BulkString::new(b"hello world".to_vec()));
    let res = s2.try_to_string().unwrap();
    assert_eq!(res, b"hello world".to_vec());

    let s = RespFrame::Array(RespArray::with_vec(vec![s1, s2]));
    let res = s.try_to_string();
    assert!(res.is_err());
}

#[test]
fn test_simple_string_rejects_cr_lf() {
    let err = RespFrame::decode(b"+a\rb\r\n").unwrap_err();
    assert_eq!(err, RespError::RespInvalid(b"Invalid simple string".to_vec()));
    let err = RespFrame::decode(b"-a\nb\r\n").unwrap_err();
    assert_eq!(err, RespError::RespInvalid(b"Invalid simple string".to_vec()));
}
