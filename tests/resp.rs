use rredis::resp::{decode, parse, RespError, RespValue, RespWriter};

fn encoded(v: RespValue) -> Vec<u8> {
    let mut w = RespWriter::new();
    w.write(v);
    w.out
}

fn same(a: &RespValue, b: &RespValue) -> bool {
    match (a, b) {
        (RespValue::Simple(x), RespValue::Simple(y)) => x == y,
        (RespValue::Error(x), RespValue::Error(y)) => x == y,
        (RespValue::Integer(x), RespValue::Integer(y)) => x == y,
        (RespValue::Bulk(x), RespValue::Bulk(y)) => x == y,
        (RespValue::Array(x), RespValue::Array(y)) => {
            x.len() == y.len() && x.iter().zip(y.iter()).all(|(p, q)| same(p, q))
        }
        _ => false,
    }
}

fn sample() -> RespValue {
    RespValue::Array(vec![
        RespValue::Bulk(b"RPUSH".to_vec()),
        RespValue::Simple("OK".to_string()),
        RespValue::Error("ERR bad".to_string()),
        RespValue::Integer(-42),
        RespValue::Array(vec![]),
        RespValue::Array(vec![RespValue::Integer(i64::MIN), RespValue::Integer(i64::MAX)]),
    ])
}

#[test]
fn writes_each_kind() {
    assert_eq!(encoded(RespValue::Simple("OK".to_string())), b"+OK\r\n".to_vec());
    assert_eq!(encoded(RespValue::Error("ERR".to_string())), b"-ERR\r\n".to_vec());
    assert_eq!(encoded(RespValue::Integer(1000)), b":1000\r\n".to_vec());
    assert_eq!(encoded(RespValue::Integer(-7)), b":-7\r\n".to_vec());
    assert_eq!(encoded(RespValue::Integer(0)), b":0\r\n".to_vec());
    assert_eq!(encoded(RespValue::Bulk(b"hello".to_vec())), b"$5\r\nhello\r\n".to_vec());
    assert_eq!(encoded(RespValue::Bulk(vec![])), b"$0\r\n\r\n".to_vec());
}

#[test]
fn writes_array_without_trailing_bytes() {
    let v = RespValue::Array(vec![RespValue::Bulk(b"A".to_vec()), RespValue::Integer(1)]);
    assert_eq!(encoded(v), b"*2\r\n$1\r\nA\r\n:1\r\n".to_vec());
}

#[test]
fn writer_methods_append() {
    let mut w = RespWriter::new();
    w.writeSimpleString("OK");
    w.writeInteger(12);
    w.writeBulkString(&b"ab".to_vec());
    w.writeError("E");
    w.writeArray(&vec![RespValue::Simple("x".to_string())]);
    assert_eq!(w.out, b"+OK\r\n:12\r\n$2\r\nab\r\n-E\r\n*1\r\n+x\r\n".to_vec());
}

#[test]
fn decodes_command_array() {
    let bytes = b"*3\r\n$5\r\nRPUSH\r\n$1\r\nA\r\n$1\r\nB\r\n";
    let (v, end) = parse(bytes).unwrap();
    assert_eq!(end, bytes.len());
    let want = RespValue::Array(vec![
        RespValue::Bulk(b"RPUSH".to_vec()),
        RespValue::Bulk(b"A".to_vec()),
        RespValue::Bulk(b"B".to_vec()),
    ]);
    assert!(same(&v, &want));
}

#[test]
fn decodes_text_and_integers() {
    let (v, end) = parse(b"+h\xc3\xa9\r\nrest").unwrap();
    assert!(same(&v, &RespValue::Simple("hé".to_string())));
    assert_eq!(end, 6);
    let (v, _) = parse(b"-oops\r\n").unwrap();
    assert!(same(&v, &RespValue::Error("oops".to_string())));
    let (v, _) = parse(b":-9223372036854775808\r\n").unwrap();
    assert!(same(&v, &RespValue::Integer(i64::MIN)));
    let (v, _) = parse(b":+15\r\n").unwrap();
    assert!(same(&v, &RespValue::Integer(15)));
}

#[test]
fn decode_at_position() {
    let bytes = b":1\r\n:2\r\n";
    let (v, end) = decode(bytes, 4).unwrap();
    assert!(same(&v, &RespValue::Integer(2)));
    assert_eq!(end, 8);
}

#[test]
fn round_trip_preserves_values() {
    let v = sample();
    let mut bytes = encoded(sample());
    let len = bytes.len();
    bytes.extend_from_slice(b"+tail\r\n");
    let (back, end) = parse(&bytes).unwrap();
    assert_eq!(end, len);
    assert!(same(&back, &v));
}

#[test]
fn unknown_tag_is_protocol_error() {
    assert_eq!(parse(b"?x\r\n").err(), Some(RespError::Protocol));
}

#[test]
fn malformed_lines_are_protocol_errors() {
    assert_eq!(parse(b"+OK\n").err(), Some(RespError::Protocol));
    assert_eq!(parse(b"$-1\r\n").err(), Some(RespError::Protocol));
    assert_eq!(parse(b"*x\r\n").err(), Some(RespError::Protocol));
    assert_eq!(parse(b"+\xff\r\n").err(), Some(RespError::Protocol));
}

#[test]
fn bad_integer_is_parse_error() {
    assert_eq!(parse(b":12a\r\n").err(), Some(RespError::Parse));
    assert_eq!(parse(b":9223372036854775808\r\n").err(), Some(RespError::Parse));
    assert_eq!(parse(b":\r\n").err(), Some(RespError::Parse));
}

#[test]
fn short_input_is_incomplete() {
    assert_eq!(parse(b"").err(), Some(RespError::Incomplete));
    assert_eq!(parse(b"+OK").err(), Some(RespError::Incomplete));
    assert_eq!(parse(b"$5\r\nhel").err(), Some(RespError::Incomplete));
    assert_eq!(parse(b"*2\r\n:1\r\n").err(), Some(RespError::Incomplete));
}

#[test]
fn bulk_terminator_is_not_checked() {
    let (v, end) = parse(b"$2\r\nabXY").unwrap();
    assert!(same(&v, &RespValue::Bulk(b"ab".to_vec())));
    assert_eq!(end, 8);
}
