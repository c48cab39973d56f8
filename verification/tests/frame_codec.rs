//! Frame serialization and deserialization against exact wire bytes.
use redis::{Frame, ParseResult};

fn parse_all(bytes: &[u8]) -> ParseResult {
    Frame::parse(&bytes.to_vec())
}

#[test]
fn test_simple_string_serialization() {
    let simple = Frame::Simple(b"OK".to_vec());
    let expected: Vec<u8> = b"+OK\r\n".to_vec();
    assert_eq!(simple.serialize(), expected);
}

#[test]
fn test_integer_serialization() {
    let num = Frame::Integer(0);
    let expected = b":0\r\n";
    assert_eq!(num.serialize(), expected.to_vec());
}

#[test]
fn test_bulk_string_serialization() {
    let bulk = Frame::Bulk(vec![b'6', b'9', b'4', b'2', b'0']);
    let expected = b"$5\r\n69420\r\n";
    assert_eq!(bulk.serialize(), expected.to_vec());
}

#[test]
fn test_null_serialization() {
    let null = Frame::Null;
    assert_eq!(null.serialize(), b"$-1\r\n".to_vec());
}

#[test]
fn test_array_serialization() {
    let set = Frame::Simple(b"SET".to_vec());
    let key = Frame::Bulk(b"foo".to_vec());
    let val = Frame::Bulk(b"bar".to_vec());
    let cmd = Frame::Array(vec![set, key, val]);
    assert_eq!(cmd.serialize(), b"*3\r\n+SET\r\n$3\r\nfoo\r\n$3\r\nbar\r\n".to_vec());
}

#[test]
fn test_integer_extremes_serialization() {
    assert_eq!(Frame::Integer(i64::MAX).serialize(), b":9223372036854775807\r\n".to_vec());
    assert_eq!(Frame::Integer(i64::MIN).serialize(), b":-9223372036854775808\r\n".to_vec());
    assert_eq!(Frame::Integer(-1).serialize(), b":-1\r\n".to_vec());
}

#[test]
fn test_simple_string_deserialization() {
    assert_eq!(parse_all(b"+SET\r\n"), ParseResult::Complete(Frame::Simple(b"SET".to_vec()), 6));

    assert_eq!(
        parse_all(b"+SET\r\n+++++"),
        ParseResult::Complete(Frame::Simple(b"SET".to_vec()), 6)
    );

    assert_eq!(parse_all(b"+SET\r"), ParseResult::Incomplete);

    assert_eq!(parse_all(b"+\r\n"), ParseResult::Complete(Frame::Simple(Vec::new()), 3));
}

#[test]
fn test_error_deserialization() {
    assert_eq!(
        parse_all(b"-Key not found\r\n"),
        ParseResult::Complete(Frame::Error(b"Key not found".to_vec()), 16)
    );

    assert_eq!(
        parse_all(b"-Key not found\r\n-----"),
        ParseResult::Complete(Frame::Error(b"Key not found".to_vec()), 16)
    );

    assert_eq!(parse_all(b"-Key not found\r"), ParseResult::Incomplete);

    assert_eq!(parse_all(b"-\r\n"), ParseResult::Complete(Frame::Error(Vec::new()), 3));
}

#[test]
fn test_integer_deserialization() {
    assert_eq!(parse_all(b":0\r\n"), ParseResult::Complete(Frame::Integer(0), 4));

    assert_eq!(parse_all(b":1\r\n"), ParseResult::Complete(Frame::Integer(1), 4));

    assert_eq!(parse_all(b":-1\r\n"), ParseResult::Complete(Frame::Integer(-1), 5));

    assert_eq!(
        parse_all(b":9223372036854775807\r\n"),
        ParseResult::Complete(Frame::Integer(9223372036854775807), 22)
    );

    assert_eq!(
        parse_all(b":-9223372036854775808\r\n"),
        ParseResult::Complete(Frame::Integer(-9223372036854775808), 23)
    );

    assert_eq!(parse_all(b":9223372036854775808\r\n"), ParseResult::Malformed);
}

#[test]
fn test_integer_malformed_text() {
    assert_eq!(parse_all(b":abc\r\n"), ParseResult::Malformed);
    assert_eq!(parse_all(b":\r\n"), ParseResult::Malformed);
    assert_eq!(parse_all(b":12a\r\n"), ParseResult::Malformed);
    assert_eq!(parse_all(b":--1\r\n"), ParseResult::Malformed);
}

#[test]
fn test_bulk_string_deserialization() {
    // Empty bulk string
    assert_eq!(parse_all(b"$0\r\n\r\n"), ParseResult::Complete(Frame::Bulk(Vec::new()), 6));

    // Non-empty bulk string
    let mut input: Vec<u8> = b"$36\r\n".to_vec();
    input.extend_from_slice("那么古尔丹，代价是什么呢".as_bytes());
    input.extend_from_slice(b"\r\n");
    assert_eq!(
        Frame::parse(&input),
        ParseResult::Complete(
            Frame::Bulk("那么古尔丹，代价是什么呢".as_bytes().to_vec()),
            43
        )
    );

    // Binary unsafe string
    assert_eq!(
        parse_all(b"$2\r\n\r\n\r\n"),
        ParseResult::Complete(Frame::Bulk(b"\r\n".to_vec()), 8)
    );

    // Incomplete
    assert_eq!(parse_all(b"$10\r\n0123456789"), ParseResult::Incomplete);

    // Inconsistent number: fewer payload bytes available than announced
    assert_eq!(parse_all(b"$10\r\n0123456\r\n"), ParseResult::Incomplete);

    // Noise at the end
    assert_eq!(
        parse_all(b"$10\r\n0123456789\r\nxxxxxx"),
        ParseResult::Complete(Frame::Bulk(b"0123456789".to_vec()), 17)
    );
}

#[test]
fn test_bulk_malformed() {
    // the two bytes after the payload must be the terminator
    assert_eq!(parse_all(b"$2\r\nabXY"), ParseResult::Malformed);
    // a negative length other than the null marker is invalid
    assert_eq!(parse_all(b"$-2\r\n"), ParseResult::Malformed);
    // a length that is not a number is invalid
    assert_eq!(parse_all(b"$ab\r\n"), ParseResult::Malformed);
}

#[test]
fn test_null_frame_deserialization() {
    assert_eq!(parse_all(b"$-1\r\n"), ParseResult::Complete(Frame::Null, 5));
}

#[test]
fn test_null_distinct_from_empty_bulk() {
    let null = parse_all(b"$-1\r\n");
    let empty = parse_all(b"$0\r\n\r\n");
    assert_eq!(null, ParseResult::Complete(Frame::Null, 5));
    assert_eq!(empty, ParseResult::Complete(Frame::Bulk(Vec::new()), 6));
    assert_ne!(null, empty);
}

fn sample_command() -> Frame {
    Frame::Array(vec![
        Frame::Simple(b"SET".to_vec()),
        Frame::Bulk(b"foo".to_vec()),
        Frame::Bulk(b"bar".to_vec()),
    ])
}

fn sample_nested() -> Frame {
    Frame::Array(vec![
        Frame::Simple(b"DEL".to_vec()),
        Frame::Array(vec![
            Frame::Bulk(b"key1".to_vec()),
            Frame::Bulk(b"key2".to_vec()),
            Frame::Bulk(b"key3".to_vec()),
            Frame::Bulk(b"key4".to_vec()),
        ]),
    ])
}

#[test]
fn test_array_deserialization() {
    assert_eq!(parse_all(b"*0\r\n"), ParseResult::Complete(Frame::Array(vec![]), 4));

    let some_cmd = sample_command();
    let encoded = some_cmd.serialize();
    assert_eq!(Frame::parse(&encoded), ParseResult::Complete(sample_command(), encoded.len()));

    let some_cmd = sample_nested();
    let encoded = some_cmd.serialize();
    assert_eq!(Frame::parse(&encoded), ParseResult::Complete(sample_nested(), encoded.len()));

    assert_eq!(parse_all(b"*3\r\n:0\r\n:1\r\n"), ParseResult::Incomplete);

    assert_eq!(
        parse_all(b"*2\r\n:0\r\n:1\r\n+++++++"),
        ParseResult::Complete(Frame::Array(vec![Frame::Integer(0), Frame::Integer(1)]), 12)
    );
}

#[test]
fn test_round_trip_deeply_nested() {
    let frame = Frame::Array(vec![
        Frame::Array(vec![
            Frame::Array(vec![Frame::Bulk(b"a\r\nb".to_vec()), Frame::Null]),
            Frame::Integer(i64::MIN),
        ]),
        Frame::Simple(Vec::new()),
        Frame::Error(b"oops".to_vec()),
        Frame::Bulk(b"\r\n\r\n".to_vec()),
    ]);
    let encoded = frame.serialize();
    match Frame::parse(&encoded) {
        ParseResult::Complete(back, used) => {
            assert_eq!(back, frame);
            assert_eq!(used, encoded.len());
        },
        other => panic!("expected a complete frame, got {:?}", other),
    }
}

#[test]
fn test_empty_and_unknown_input() {
    assert_eq!(parse_all(b""), ParseResult::Incomplete);
    assert_eq!(parse_all(b"x"), ParseResult::Malformed);
    assert_eq!(parse_all(b"hello"), ParseResult::Malformed);
}

#[test]
fn test_invalid_text_is_malformed() {
    // a simple string's payload must decode as text
    assert_eq!(parse_all(b"+\xff\xfe\r\n"), ParseResult::Malformed);
    // a bulk payload may hold the very same bytes
    assert_eq!(
        parse_all(b"$2\r\n\xff\xfe\r\n"),
        ParseResult::Complete(Frame::Bulk(vec![0xff, 0xfe]), 8)
    );
}
