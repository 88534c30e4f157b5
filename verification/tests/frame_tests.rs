use redis::decoder::Decoder;
use redis::frame::{Frame, ParseError, ProtocolError};

#[test]
fn test_parse_u64_success() {
    assert_eq!(1234, Frame::parse_u64(b"1234\r\n", 0).unwrap().0);
}

#[test]
fn test_parse_u64_error() {
    let n = Frame::parse_u64(b"12three4\r\n", 0);
    assert!(matches![n, Err(ParseError::Other(_))]);

    let n = Frame::parse_u64(b"99999999999999999999\r\n", 0);
    assert!(matches![n, Err(ParseError::Other(_))]);

    let n = Frame::parse_u64(b"1234\r", 0);
    assert!(matches![n, Err(ParseError::Incomplete)]);
}

#[test]
fn test_parse_bulk_string_success() {
    assert!(
        matches![Frame::parse(b"$5\r\nhello\r\n", 0).unwrap().0, Frame::Bulk(bytes) if &bytes[..] == b"hello"]
    )
}

#[test]
fn test_parse_bulk_string_error() {
    // seven bytes end exactly where the terminator would begin: a
    // well-formed frame could still follow, so this is incomplete
    let s = Frame::parse(b"$5\r\nhey\r\n", 0);
    assert!(matches![s, Err(ParseError::Incomplete)]);

    let s = Frame::parse(b"$3\r\nhey", 0);
    assert!(matches![s, Err(ParseError::Incomplete)]);

    let s = Frame::parse(b"$5\r\nhell", 0);
    assert!(matches![s, Err(ParseError::Incomplete)]);

    let s = Frame::parse(b"$5", 0);
    assert!(matches![s, Err(ParseError::Incomplete)]);
}

#[test]
fn test_parse_array_success() {
    let array = Frame::parse(b"*1\r\n$4\r\nPING\r\n", 0).unwrap().0;

    assert!(matches![array, Frame::Array(_)]);
    if let Frame::Array(frames) = array {
        assert_eq!(1, frames.len());
        let bulk = &frames[0];
        assert!(matches![bulk, Frame::Bulk(bytes) if &bytes[..] == b"PING"]);
    }
}

#[test]
fn test_parse_array_error() {
    let a = Frame::parse(b"*1", 0);
    assert!(matches![a, Err(ParseError::Incomplete)]);

    let a = Frame::parse(b"*1\r\n$4\r\nPI", 0);
    assert!(matches![a, Err(ParseError::Incomplete)]);
}

#[test]
fn test_get_line() {
    let line = Frame::get_line(b"hello\r\n", 0).unwrap().0;

    assert_eq!(b"hello", line);
}

#[test]
fn test_crlf_pos() {
    let pos = Frame::crlf_pos(b"hello\r\n", 0).unwrap();
    assert_eq!(5, pos);

    let pos = Frame::crlf_pos(b"hi\r\nhello\r\nyo\r\n", 4).unwrap();
    assert_eq!(9, pos);
}

#[test]
fn parse_consumes_exactly_one_frame() {
    let (f, used) = Frame::parse(b"+OK\r\n+second\r\n", 0).unwrap();
    assert_eq!(f, Frame::Simple(b"OK".to_vec()));
    assert_eq!(used, 5);
    let (f2, used2) = Frame::parse(b"+OK\r\n+second\r\n", used).unwrap();
    assert_eq!(f2, Frame::Simple(b"second".to_vec()));
    assert_eq!(used2, 14);
}

#[test]
fn parse_simple_error_null() {
    assert_eq!(
        Frame::parse(b"+PONG\r\n", 0).unwrap().0,
        Frame::Simple(b"PONG".to_vec())
    );
    assert_eq!(
        Frame::parse(b"-ERR oops\r\n", 0).unwrap().0,
        Frame::Error(b"ERR oops".to_vec())
    );
    assert_eq!(Frame::parse(b"_\r\n", 0).unwrap().0, Frame::Null);
}

#[test]
fn parse_protocol_errors() {
    assert!(matches![
        Frame::parse(b"x\r\n", 0),
        Err(ParseError::Other(ProtocolError::UnknownType))
    ]);
    assert!(matches![
        Frame::parse(b"$abc\r\n", 0),
        Err(ParseError::Other(ProtocolError::BadLength))
    ]);
    assert!(matches![
        Frame::parse(b"$\r\n", 0),
        Err(ParseError::Other(ProtocolError::BadLength))
    ]);
    assert!(matches![
        Frame::parse(b"*-1\r\n", 0),
        Err(ParseError::Other(ProtocolError::BadLength))
    ]);
    assert!(matches![
        Frame::parse(b"$3\r\nheyXX", 0),
        Err(ParseError::Other(ProtocolError::BadBulkEnd))
    ]);
    assert!(matches![
        Frame::parse(b"_x\r\n", 0),
        Err(ParseError::Other(ProtocolError::BadNull))
    ]);
}

#[test]
fn parse_rejects_too_deep_nesting() {
    let mut input = Vec::new();
    for _ in 0..65 {
        input.extend_from_slice(b"*1\r\n");
    }
    input.extend_from_slice(b"_\r\n");
    assert!(matches![
        Frame::parse(&input, 0),
        Err(ParseError::Other(ProtocolError::TooDeep))
    ]);

    let mut shallow = Vec::new();
    for _ in 0..64 {
        shallow.extend_from_slice(b"*1\r\n");
    }
    shallow.extend_from_slice(b"_\r\n");
    assert!(Frame::parse(&shallow, 0).is_ok());
}

#[test]
fn serialize_canonical_forms() {
    assert_eq!(Frame::Bulk(b"hello".to_vec()).serialize(), b"$5\r\nhello\r\n");
    assert_eq!(Frame::Bulk(b"".to_vec()).serialize(), b"$0\r\n\r\n");
    assert_eq!(Frame::Simple(b"OK".to_vec()).serialize(), b"+OK\r\n");
    assert_eq!(Frame::Error(b"ERR oops".to_vec()).serialize(), b"-ERR oops\r\n");
    assert_eq!(Frame::Null.serialize(), b"_\r\n");
    let array = Frame::Array(vec![
        Frame::Bulk(b"GET".to_vec()),
        Frame::Bulk(b"x".to_vec()),
    ]);
    assert_eq!(array.serialize(), b"*2\r\n$3\r\nGET\r\n$1\r\nx\r\n");
}

#[test]
fn round_trip_parse_of_serialized_frames() {
    let frames = vec![
        Frame::Bulk(b"hello".to_vec()),
        Frame::Bulk(b"he\r\nllo".to_vec()),
        Frame::Bulk(vec![0u8, 255u8, 13u8, 10u8, 13u8]),
        Frame::Bulk(Vec::new()),
        Frame::Simple(b"FULLRESYNC abc 0".to_vec()),
        Frame::Error(b"ERR bad".to_vec()),
        Frame::Null,
        Frame::Array(vec![]),
        Frame::Array(vec![
            Frame::Bulk(b"SET".to_vec()),
            Frame::Array(vec![Frame::Null]),
            Frame::Bulk(b"v\r\n".to_vec()),
        ]),
    ];
    for frame in frames {
        let bytes = frame.serialize();
        let (parsed, used) = Frame::parse(&bytes, 0).unwrap();
        assert_eq!(parsed, frame);
        assert_eq!(used, bytes.len());
    }
}

#[test]
fn incremental_bulk_completes_after_more_bytes() {
    let mut dec = Decoder::new();
    dec.feed(b"$5\r\nhel");
    assert!(matches![dec.try_next(), Ok(None)]);
    dec.feed(b"lo\r\n");
    let got = dec.try_next().unwrap().unwrap();
    assert_eq!(got, Frame::Bulk(b"hello".to_vec()));
    assert!(dec.is_empty());
}

#[test]
fn byte_at_a_time_feed_yields_the_same_frames() {
    let whole: Vec<u8> =
        b"+OK\r\n*2\r\n$3\r\nGET\r\n$1\r\nx\r\n_\r\n$7\r\nhe\r\nllo\r\n-ERR no\r\n".to_vec();

    // parse the same bytes whole, frame after frame
    let mut expected = Vec::new();
    let mut pos = 0;
    while pos < whole.len() {
        let (f, next) = Frame::parse(&whole, pos).unwrap();
        expected.push(f);
        pos = next;
    }
    assert_eq!(expected.len(), 5);

    // feed one byte at a time and collect everything that comes out
    let mut dec = Decoder::new();
    let mut got = Vec::new();
    for b in whole.iter() {
        dec.feed(&[*b]);
        while let Some(f) = dec.try_next().unwrap() {
            got.push(f);
        }
    }
    assert!(dec.is_empty());
    assert_eq!(got, expected);
}

#[test]
fn decoder_reports_protocol_errors() {
    let mut dec = Decoder::new();
    dec.feed(b"x\r\n");
    assert_eq!(dec.try_next(), Err(ProtocolError::UnknownType));
    // the malformed bytes stay put; the connection is what must close
    assert!(!dec.is_empty());
}

#[test]
fn parse_failure_messages() {
    let e = Frame::parse_u64(b"1234\r", 0).unwrap_err();
    assert_eq!(e.message(), "incomplete input");

    let e = Frame::parse(b"x\r\n", 0).unwrap_err();
    assert_eq!(e.message(), "unknown data type token");

    assert_eq!(ProtocolError::TooDeep.message(), "arrays nest too deeply");
}
