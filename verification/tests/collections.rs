//! Map and set frames: sorted-key encoding, decode, and incomplete
//! input inside a container.
use simple_redis::{BulkString, RespEncode, RespError, RespFrame, RespMap, RespSet};

#[test]
fn test_resp_map_encode() {
    let mut rm = RespMap::new();
    rm.insert(
        b"hello".to_vec(),
        RespFrame::BulkString(BulkString::new(b"world".to_vec())),
    );
    rm.insert(b"foo".to_vec(), RespFrame::BulkString(BulkString::new(b"bar".to_vec())));
    let res = rm.encode();
    println!("{:?}", String::from_utf8_lossy(&res).to_string());
    assert_eq!(res, b"%2\r\n+foo\r\n$3\r\nbar\r\n+hello\r\n$5\r\nworld\r\n");
}

#[test]
fn test_resp_map_decode() {
    let data = b"%2\r\n+foo\r\n$3\r\nbar\r\n+hello\r\n$5\r\nworld\r\n";
    let (res, used) = RespMap::decode(data).unwrap();
    assert_eq!(used, data.len());
    assert_eq!(res.encode(), b"%2\r\n+foo\r\n$3\r\nbar\r\n+hello\r\n$5\r\nworld\r\n");
}

#[test]
fn test_resp_map_decode_incomplete() {
    let data = b"%2\r\n+foo\r\n$3\r\nbar\r\n+hello\r\n$5\r\nwo";
    let err = RespMap::decode(data).unwrap_err();
    assert_eq!(err, RespError::RespNotComplete);

    let data = b"%2\r\n+foo\r\n$3\r\nbar\r\n+hello\r\n$5\r";
    let err = RespMap::decode(data).unwrap_err();
    assert_eq!(err, RespError::RespNotComplete);

    let data = b"%2\r\n+foo\r\n$3\r\nbar\r\nhello\r\n$5\r";
    let err = RespMap::decode(data).unwrap_err();
    assert_ne!(err, RespError::RespNotComplete);
}

#[test]
fn test_resp_set_encode() {
    let mut rs = RespSet::new();
    rs.push(RespFrame::Double(b"1.0".to_vec()));
    rs.push(RespFrame::BulkString(BulkString::new(b"hello world".to_vec())));
    let res = rs.encode();
    assert_eq!(res, b"~2\r\n,1.0\r\n$11\r\nhello world\r\n");
}

#[test]
fn test_resp_set_decode() {
    let data = b"~2\r\n,1.0\r\n$11\r\nhello world\r\n";
    let (res, used) = RespSet::decode(data).unwrap();
    assert_eq!(used, data.len());
    assert_eq!(res.encode(), b"~2\r\n,1.0\r\n$11\r\nhello world\r\n");
}

#[test]
fn test_set_decode() {
    let data = b"~2\r\n$3\r\nset\r\n$5\r\nhello\r\n";
    let (frame, _used) = RespSet::decode(data).unwrap();
    assert_eq!(
        frame,
        RespSet::with_vec(vec![
            RespFrame::BulkString(BulkString::new(b"set".to_vec())),
            RespFrame::BulkString(BulkString::new(b"hello".to_vec())),
        ])
    );
}
