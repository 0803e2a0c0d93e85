use mini_redis::cmd::Command;
use mini_redis::connection::Connection;
use mini_redis::frame::{Error, Frame};
use mini_redis::parse::{Parse, ParseError};
use mini_redis::shutdown::Shutdown;

fn bulk(s: &str) -> Frame {
    Frame::Bulk(s.as_bytes().to_vec())
}

fn cmd_frame(parts: &[&str]) -> Frame {
    Frame::Array(parts.iter().map(|p| bulk(p)).collect())
}

#[test]
fn get_parses() {
    match Command::from_frame(cmd_frame(&["GET", "mykey"])) {
        Ok(Command::Get(g)) => assert_eq!(g.key, "mykey"),
        other => panic!("unexpected: {:?}", other.is_ok()),
    }
}

#[test]
fn set_without_ttl() {
    match Command::from_frame(cmd_frame(&["SET", "a", "1"])) {
        Ok(Command::SetCmd(s)) => {
            assert_eq!(s.key, "a");
            assert_eq!(s.value, b"1".to_vec());
            assert_eq!(s.expire, None);
        }
        other => panic!("unexpected: {:?}", other.is_ok()),
    }
}

#[test]
fn set_with_ex_seconds() {
    match Command::from_frame(cmd_frame(&["SET", "a", "1", "EX", "100"])) {
        Ok(Command::SetCmd(s)) => assert_eq!(s.expire, Some(100_000)),
        other => panic!("unexpected: {:?}", other.is_ok()),
    }
}

#[test]
fn set_with_px_millis_case_insensitive() {
    match Command::from_frame(cmd_frame(&["set", "a", "1", "px", "50"])) {
        Ok(Command::SetCmd(s)) => assert_eq!(s.expire, Some(50)),
        other => panic!("unexpected: {:?}", other.is_ok()),
    }
}

#[test]
fn set_with_unsupported_modifier_is_error() {
    assert!(Command::from_frame(cmd_frame(&["SET", "a", "1", "FOO"])).is_err());
}

#[test]
fn set_with_trailing_garbage_is_error() {
    assert!(Command::from_frame(cmd_frame(&["SET", "a", "1", "EX", "9", "zzz"])).is_err());
}

#[test]
fn unknown_verb_is_folded_not_an_error() {
    match Command::from_frame(cmd_frame(&["FROBNICATE"])) {
        Ok(Command::Unknown(u)) => assert_eq!(u.get_name(), "frobnicate"),
        other => panic!("unexpected: {:?}", other.is_ok()),
    }
}

#[test]
fn unknown_verb_ignores_arguments() {
    match Command::from_frame(cmd_frame(&["NOPE", "x", "y"])) {
        Ok(Command::Unknown(u)) => assert_eq!(u.get_name(), "nope"),
        other => panic!("unexpected: {:?}", other.is_ok()),
    }
}

#[test]
fn subscribe_needs_a_channel() {
    assert!(Command::from_frame(cmd_frame(&["SUBSCRIBE"])).is_err());
    match Command::from_frame(cmd_frame(&["SUBSCRIBE", "c1", "c2"])) {
        Ok(Command::Subscribe(s)) => assert_eq!(s.channels, vec!["c1", "c2"]),
        other => panic!("unexpected: {:?}", other.is_ok()),
    }
}

#[test]
fn unsubscribe_collects_channels() {
    match Command::from_frame(cmd_frame(&["UNSUBSCRIBE", "a", "b", "c"])) {
        Ok(Command::Unsubscribe(s)) => assert_eq!(s.channels, vec!["a", "b", "c"]),
        other => panic!("unexpected: {:?}", other.is_ok()),
    }
}

#[test]
fn publish_parses() {
    match Command::from_frame(cmd_frame(&["PUBLISH", "chan", "payload"])) {
        Ok(Command::Publish(p)) => {
            assert_eq!(p.channel, "chan");
            assert_eq!(p.message, b"payload".to_vec());
        }
        other => panic!("unexpected: {:?}", other.is_ok()),
    }
}

#[test]
fn ping_with_and_without_message() {
    match Command::from_frame(cmd_frame(&["PING"])) {
        Ok(Command::Ping(p)) => assert_eq!(p.msg, None),
        other => panic!("unexpected: {:?}", other.is_ok()),
    }
    match Command::from_frame(cmd_frame(&["PING", "hi"])) {
        Ok(Command::Ping(p)) => assert_eq!(p.msg, Some(b"hi".to_vec())),
        other => panic!("unexpected: {:?}", other.is_ok()),
    }
}

#[test]
fn non_array_frame_is_rejected() {
    assert!(Command::from_frame(Frame::Simple("GET".to_string())).is_err());
}

#[test]
fn parse_cursor_reads_typed_arguments() {
    let frame = Frame::Array(vec![
        Frame::Simple("text".to_string()),
        Frame::Integer(7),
        bulk("21"),
        bulk("raw"),
    ]);
    let mut p = Parse::new(frame).expect("array");
    assert_eq!(p.next_string().expect("string"), "text");
    assert_eq!(p.next_int().expect("int frame"), 7);
    assert_eq!(p.next_int().expect("decimal text"), 21);
    assert_eq!(p.next_bytes().expect("bytes"), b"raw".to_vec());
    assert!(p.finish().is_ok());
}

#[test]
fn parse_cursor_rejects_bad_shapes() {
    let frame = Frame::Array(vec![Frame::Integer(7)]);
    let mut p = Parse::new(frame).expect("array");
    assert!(matches!(p.next_string(), Err(ParseError::Other(_))));

    let frame = Frame::Array(vec![Frame::Bulk(vec![0xff, 0xfe])]);
    let mut p = Parse::new(frame).expect("array");
    // invalid UTF-8 cannot become a string argument
    assert!(matches!(p.next_string(), Err(ParseError::Other(_))));

    let frame = Frame::Array(vec![]);
    let mut p = Parse::new(frame).expect("array");
    assert!(matches!(p.next_string(), Err(ParseError::EndOfStream)));

    let frame = Frame::Array(vec![bulk("x")]);
    let mut p = Parse::new(frame).expect("array");
    assert!(matches!(p.finish(), Err(ParseError::Other(_))));
}

#[test]
fn connection_reassembles_chunked_frames() {
    let mut conn = Connection::new();
    let wire = Frame::Array(vec![bulk("GET"), bulk("key")]).encode();
    let (first, second) = wire.split_at(wire.len() / 2);
    conn.feed(first);
    assert!(conn.parse_frame().expect("retryable").is_none());
    conn.feed(second);
    let frame = conn.parse_frame().expect("whole").expect("one frame");
    assert_eq!(frame, Frame::Array(vec![bulk("GET"), bulk("key")]));
    assert_eq!(conn.buffered(), 0);
}

#[test]
fn connection_keeps_trailing_bytes() {
    let mut conn = Connection::new();
    let mut wire = Frame::Simple("one".to_string()).encode();
    wire.extend_from_slice(b":2");
    conn.feed(&wire);
    let frame = conn.parse_frame().expect("whole").expect("one frame");
    assert_eq!(frame, Frame::Simple("one".to_string()));
    assert_eq!(conn.buffered(), 2);
    assert!(conn.parse_frame().expect("retryable").is_none());
}

#[test]
fn connection_end_of_stream() {
    let conn = Connection::new();
    assert!(matches!(conn.end_of_stream(), Ok(None)));
    let mut conn = Connection::new();
    conn.feed(b"+par");
    // the peer closed in the middle of a frame
    assert!(matches!(conn.end_of_stream(), Err(Error::Other(_))));
}

#[test]
fn connection_propagates_protocol_errors() {
    let mut conn = Connection::new();
    conn.feed(b"!bad\r\n");
    assert!(conn.parse_frame().is_err());
}

#[test]
fn shutdown_latch_flips_once() {
    let (tx, rx) = tokio::sync::broadcast::channel::<()>(1);
    let mut s = Shutdown::new(rx);
    assert!(!s.is_shutdown());
    drop(tx);
    s.note_received();
    assert!(s.is_shutdown());
}

#[test]
fn ex_seconds_saturate_as_milliseconds() {
    match Command::from_frame(cmd_frame(&["SET", "a", "1", "EX", "18446744073709551615"])) {
        Ok(Command::SetCmd(s)) => assert_eq!(s.expire, Some(u64::MAX)),
        other => panic!("unexpected: {:?}", other.is_ok()),
    }
}

#[test]
fn set_modifier_without_count_is_error() {
    assert!(Command::from_frame(cmd_frame(&["SET", "a", "1", "EX"])).is_err());
    assert!(Command::from_frame(cmd_frame(&["SET", "a", "1", "PX", "abc"])).is_err());
}
