use redis::command::{Command, CommandError};
use redis::frame::{Frame, ParseError};

fn bulk(b: &[u8]) -> Frame {
    Frame::Bulk(b.to_vec())
}

#[test]
fn parse_ping() {
    let ping_frame = Frame::Array(vec![bulk(b"PING")]);

    let command = Command::parse(ping_frame).unwrap();

    assert!(matches![command, Command::Ping]);
}

#[test]
fn parse_echo() {
    let ping_frame = Frame::Array(vec![bulk(b"ECHO"), bulk(b"hey")]);

    let command = Command::parse(ping_frame).unwrap();

    assert!(matches![command, Command::Echo(bytes) if &bytes[..] == b"hey"]);
}

#[test]
fn parse_get_from_wire_bytes() {
    let (frame, _) = Frame::parse(b"*2\r\n$3\r\nGET\r\n$1\r\nx\r\n", 0).unwrap();
    let command = Command::parse(frame).unwrap();
    assert!(matches![command, Command::Get(key) if key == "x"]);

    let (frame, _) = Frame::parse(b"*1\r\n$4\r\nPING\r\n", 0).unwrap();
    let command = Command::parse(frame).unwrap();
    assert!(matches![command, Command::Ping]);
}

#[test]
fn negative_array_length_is_a_parse_error() {
    let r = Frame::parse(b"*-1\r\n", 0);
    assert!(matches![r, Err(ParseError::Other(_))]);
}

#[test]
fn non_bulk_element_is_rejected() {
    let frame = Frame::Array(vec![bulk(b"ECHO"), Frame::Null]);
    assert_eq!(Command::parse(frame), Err(CommandError::NotBulk));
}

#[test]
fn command_shape_errors() {
    assert_eq!(
        Command::parse(bulk(b"PING")),
        Err(CommandError::InvalidFrame)
    );
    assert_eq!(
        Command::parse(Frame::Array(vec![])),
        Err(CommandError::EmptyArray)
    );
    assert_eq!(
        Command::parse(Frame::Array(vec![bulk(b"PING"), bulk(b"x")])),
        Err(CommandError::PingArity)
    );
    assert_eq!(
        Command::parse(Frame::Array(vec![bulk(b"ECHO")])),
        Err(CommandError::EchoArity)
    );
    assert_eq!(
        Command::parse(Frame::Array(vec![bulk(b"GET"), bulk(b"a"), bulk(b"b")])),
        Err(CommandError::GetArity)
    );
    assert_eq!(
        Command::parse(Frame::Array(vec![bulk(b"SET"), bulk(b"k")])),
        Err(CommandError::SetArity)
    );
    assert_eq!(
        Command::parse(Frame::Array(vec![
            bulk(b"INFO"),
            bulk(b"a"),
            bulk(b"b")
        ])),
        Err(CommandError::InfoArity)
    );
    assert_eq!(
        Command::parse(Frame::Array(vec![bulk(b"FLUSHALL")])),
        Err(CommandError::Unknown(b"FLUSHALL".to_vec()))
    );
}

#[test]
fn command_names_are_case_sensitive() {
    assert_eq!(
        Command::parse(Frame::Array(vec![bulk(b"ping")])),
        Err(CommandError::Unknown(b"ping".to_vec()))
    );
}

#[test]
fn invalid_utf8_key_is_rejected() {
    let frame = Frame::Array(vec![bulk(b"GET"), bulk(&[0xffu8, 0xfe])]);
    assert_eq!(Command::parse(frame), Err(CommandError::BadKey));

    let frame = Frame::Array(vec![bulk(b"GET"), bulk("clé".as_bytes())]);
    assert!(matches![Command::parse(frame), Ok(Command::Get(k)) if k == "clé"]);
}

#[test]
fn set_with_px_modifier() {
    let frame = Frame::Array(vec![
        bulk(b"SET"),
        bulk(b"k"),
        bulk(b"v"),
        bulk(b"px"),
        bulk(b"100"),
    ]);
    let command = Command::parse(frame).unwrap();
    assert_eq!(
        command,
        Command::SetValue {
            key: "k".to_string(),
            value: b"v".to_vec(),
            px: Some(100),
        }
    );
}

#[test]
fn set_px_quirks_follow_the_lenient_scan() {
    // the token scan looks for the lowercase literal only
    let frame = Frame::Array(vec![
        bulk(b"SET"),
        bulk(b"k"),
        bulk(b"v"),
        bulk(b"PX"),
        bulk(b"100"),
    ]);
    assert!(matches![
        Command::parse(frame),
        Ok(Command::SetValue { px: None, .. })
    ]);

    // a trailing token with nothing after it is silently ignored
    let frame = Frame::Array(vec![bulk(b"SET"), bulk(b"k"), bulk(b"v"), bulk(b"px")]);
    assert!(matches![
        Command::parse(frame),
        Ok(Command::SetValue { px: None, .. })
    ]);

    // an unreadable count is silently ignored
    let frame = Frame::Array(vec![
        bulk(b"SET"),
        bulk(b"k"),
        bulk(b"v"),
        bulk(b"px"),
        bulk(b"soon"),
    ]);
    assert!(matches![
        Command::parse(frame),
        Ok(Command::SetValue { px: None, .. })
    ]);

    // leading zeros and trailing junk follow the number reader's rules
    let frame = Frame::Array(vec![
        bulk(b"SET"),
        bulk(b"k"),
        bulk(b"v"),
        bulk(b"px"),
        bulk(b"0042ms"),
    ]);
    assert!(matches![
        Command::parse(frame),
        Ok(Command::SetValue { px: Some(42), .. })
    ]);
}

#[test]
fn replconf_and_psync_accept_any_arguments() {
    let frame = Frame::Array(vec![bulk(b"REPLCONF"), bulk(b"capa"), bulk(b"psync2")]);
    assert!(matches![Command::parse(frame), Ok(Command::Replconf)]);

    let frame = Frame::Array(vec![bulk(b"PSYNC"), bulk(b"?"), bulk(b"-1")]);
    assert!(matches![Command::parse(frame), Ok(Command::Psync)]);
}

#[test]
fn error_frames_carry_the_failure_text() {
    let e = Command::parse(Frame::Array(vec![bulk(b"GET")])).unwrap_err();
    assert_eq!(
        e.to_error_frame(),
        Frame::Error(b"expected: GET <key>".to_vec())
    );

    let e = Command::parse(Frame::Array(vec![bulk(b"NOPE")])).unwrap_err();
    assert_eq!(
        e.to_error_frame(),
        Frame::Error(b"unknown command: NOPE".to_vec())
    );
}
