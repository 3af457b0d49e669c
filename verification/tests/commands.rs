//! The command layer: verb dispatch, arity and argument checking, and
//! execution against the backend.
use simple_redis::{
    Backend, Command, CommandError, Get, RespArray, RespFrame, SADD, SISMEBER, SimpleString,
    get_args, parse_key_values_as_string,
};

#[test]
fn test_get_args() {
    let (res, _) = RespArray::decode(b"*2\r\n$3\r\nget\r\n$3\r\nkey\r\n").unwrap();
    let args = get_args(res, b"get", 1).unwrap();
    assert_eq!(args.len(), 1);

    let (res, _) = RespArray::decode(b"*2\r\n+get\r\n$3\r\nkey\r\n").unwrap();
    let args = get_args(res, b"get", 1).unwrap();
    assert_eq!(args.len(), 1);

    let (res, _) = RespArray::decode(b"*3\r\n$3\r\nget\r\n$3\r\nkey\r\n+abc\r\n").unwrap();
    let err = get_args(res, b"get", 1).unwrap_err();
    assert_eq!(
        err,
        CommandError::InvalidCommand(
            format!("Command args not equal, expect: {}, got: {}", 1, 2).into_bytes()
        )
    );
}

#[test]
fn test_try_from() {
    let (res, _) = RespArray::decode(b"*2\r\n$3\r\nget\r\n$3\r\nkey\r\n").unwrap();
    let cmd = Command::try_from_array(res).unwrap();
    match cmd {
        Command::Get(_) => {}
        _ => panic!("Command type not equal"),
    }

    let (res, _) = RespArray::decode(b"*3\r\n$3\r\nset\r\n$3\r\nkey\r\n$5\r\nvalue\r\n").unwrap();
    let cmd = Command::try_from_array(res).unwrap();
    match cmd {
        Command::SetCmd(_) => {}
        _ => panic!("Command type not equal"),
    }

    let (res, _) = RespArray::decode(b"*3\r\n$4\r\nhget\r\n$3\r\nabc\r\n$3\r\nkey\r\n").unwrap();
    let cmd = Command::try_from_array(res).unwrap();
    match cmd {
        Command::HGet(_) => {}
        _ => panic!("Command type not equal"),
    }
}

#[test]
fn test_get_try_from() {
    let mut ra = RespArray::new();
    ra.try_push(RespFrame::from_text(b"get".to_vec())).unwrap();
    ra.try_push(RespFrame::from_text(b"key".to_vec())).unwrap();
    let get = Get::try_from(ra).unwrap();
    assert_eq!(get.key, b"key".to_vec());
}

#[test]
fn test_echo() {
    let (frame, _) = RespFrame::decode(b"*2\r\n$4\r\necho\r\n$5\r\nhello\r\n").unwrap();
    let echo = Command::try_from(frame).unwrap();
    let mut backend = Backend::new();
    let res = echo.execute(&mut backend);

    assert_eq!(res.try_to_string().unwrap(), b"hello".to_vec())
}

#[test]
fn test_hmget() {
    let (frame, _) =
        RespFrame::decode(b"*4\r\n$5\r\nhmget\r\n$3\r\nkey\r\n$6\r\nfield1\r\n$6\r\nfield2\r\n")
            .unwrap();
    let hmget = Command::try_from(frame).unwrap();
    let mut b = Backend::new();
    b.hset(b"key".to_vec(), b"field1".to_vec(), RespFrame::from_text(b"value1".to_vec()));
    b.hset(b"key".to_vec(), b"field2".to_vec(), RespFrame::from_text(b"value2".to_vec()));

    let res = hmget.execute(&mut b);
    assert_eq!(
        res,
        RespFrame::Array(RespArray::with_vec(vec![
            RespFrame::SimpleString(SimpleString::new(b"value1".to_vec())),
            RespFrame::SimpleString(SimpleString::new(b"value2".to_vec())),
        ]))
    );
}

#[test]
fn test_sadd() {
    let mut backend = Backend::new();
    backend.sadd(b"key".to_vec(), b"member1".to_vec());
    let sadd = SADD {
        key: b"key".to_vec(),
        members: vec![b"member1".to_vec(), b"member2".to_vec(), b"member3".to_vec()],
    };
    let res = sadd.execute(&mut backend);
    assert_eq!(res, RespFrame::Integer(2));
}

#[test]
fn test_sismember() {
    let mut backend = Backend::new();
    backend.sadd(b"key".to_vec(), b"member1".to_vec());
    let sismember = SISMEBER { key: b"key".to_vec(), member: b"member1".to_vec() };
    let res = sismember.execute(&mut backend);
    assert_eq!(res, RespFrame::Integer(1));
}

#[test]
fn test_parse_key_values_rejects_non_string() {
    let args = vec![
        RespFrame::from_text(b"key".to_vec()),
        RespFrame::from_text(b"m1".to_vec()),
        RespFrame::Integer(5),
    ];
    let err = parse_key_values_as_string(args).unwrap_err();
    assert_eq!(err, CommandError::InvalidArgument(b"Not support to string".to_vec()));

    let args = vec![RespFrame::Integer(5)];
    let err = parse_key_values_as_string(args).unwrap_err();
    assert_eq!(err, CommandError::InvalidArgument(b"Not support to string".to_vec()));

    let args = vec![
        RespFrame::from_text(b"key".to_vec()),
        RespFrame::from_text(b"m1".to_vec()),
        RespFrame::from_text(b"m2".to_vec()),
    ];
    let (key, rest) = parse_key_values_as_string(args).unwrap();
    assert_eq!(key, b"key".to_vec());
    assert_eq!(rest, vec![b"m1".to_vec(), b"m2".to_vec()]);
}
