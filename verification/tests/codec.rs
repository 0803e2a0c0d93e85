use mini_redis::frame::{get_decimal, get_line, get_u8, parse_u64, peek_u8, skip, Error, Frame};

fn enc(f: &Frame) -> Vec<u8> {
    f.encode()
}

fn sample_nested() -> Frame {
    Frame::Array(vec![
        Frame::Simple("OK".to_string()),
        Frame::Error("oops".to_string()),
        Frame::Integer(12345),
        Frame::Bulk(b"hello\r\nworld".to_vec()),
        Frame::Null,
        Frame::Array(vec![Frame::Integer(0), Frame::Bulk(Vec::new())]),
    ])
}

#[test]
fn encode_simple() {
    assert_eq!(enc(&Frame::Simple("OK".to_string())), b"+OK\r\n".to_vec());
    assert_eq!(enc(&Frame::Error("err".to_string())), b"-err\r\n".to_vec());
    assert_eq!(enc(&Frame::Integer(1000)), b":1000\r\n".to_vec());
    assert_eq!(enc(&Frame::Bulk(b"foobar".to_vec())), b"$6\r\nfoobar\r\n".to_vec());
    assert_eq!(enc(&Frame::Null), b"$-1\r\n".to_vec());
    assert_eq!(
        enc(&Frame::Array(vec![
            Frame::Bulk(b"foo".to_vec()),
            Frame::Bulk(b"bar".to_vec())
        ])),
        b"*2\r\n$3\r\nfoo\r\n$3\r\nbar\r\n".to_vec()
    );
}

#[test]
fn round_trip_scalars() {
    for f in [
        Frame::Simple("a simple line".to_string()),
        Frame::Error("an error line".to_string()),
        Frame::Integer(0),
        Frame::Integer(u64::MAX),
        Frame::Bulk(b"\x00\xff\r\n binary".to_vec()),
        Frame::Bulk(Vec::new()),
        Frame::Null,
    ] {
        let bytes = enc(&f);
        let end = Frame::check(&bytes, 0).expect("complete");
        assert_eq!(end, bytes.len());
        let (g, end2) = Frame::parse(&bytes, 0).expect("parses");
        assert_eq!(end2, bytes.len());
        assert_eq!(g, f);
        assert_eq!(enc(&g), bytes);
    }
}

#[test]
fn round_trip_nested_array() {
    let f = sample_nested();
    let bytes = enc(&f);
    let end = Frame::check(&bytes, 0).expect("complete");
    assert_eq!(end, bytes.len());
    let (g, end2) = Frame::parse(&bytes, 0).expect("parses");
    assert_eq!(end2, bytes.len());
    assert_eq!(g, f);
    assert_eq!(enc(&g), bytes);
}

#[test]
fn every_strict_prefix_is_incomplete() {
    let f = sample_nested();
    let bytes = enc(&f);
    for k in 0..bytes.len() {
        let prefix = bytes[..k].to_vec();
        match Frame::check(&prefix, 0) {
            Err(Error::Incomplete) => {}
            other => panic!("prefix of {} bytes was not incomplete: {:?}", k, other),
        }
        match Frame::parse(&prefix, 0) {
            Err(Error::Incomplete) => {}
            other => panic!("prefix of {} bytes did not parse incomplete: {:?}", k, other),
        }
    }
}

#[test]
fn unicode_simple_string_round_trips() {
    let f = Frame::Simple("héllo wörld \u{1F980}".to_string());
    let bytes = enc(&f);
    let (g, end) = Frame::parse(&bytes, 0).expect("parses");
    assert_eq!(end, bytes.len());
    assert_eq!(g, f);
}

#[test]
fn bad_tag_is_protocol_error() {
    let bytes = b"!whatever\r\n".to_vec();
    assert!(matches!(Frame::check(&bytes, 0), Err(Error::Other(_))));
    assert!(matches!(Frame::parse(&bytes, 0), Err(Error::Other(_))));
}

#[test]
fn non_digit_length_is_protocol_error() {
    let bytes = b":12a\r\n".to_vec();
    assert!(matches!(Frame::check(&bytes, 0), Err(Error::Other(_))));
    let bytes = b"$x\r\n".to_vec();
    assert!(matches!(Frame::check(&bytes, 0), Err(Error::Other(_))));
    let bytes = b"*-3\r\n".to_vec();
    assert!(matches!(Frame::check(&bytes, 0), Err(Error::Other(_))));
}

#[test]
fn null_marker_variants() {
    let bytes = b"$-1\r\n".to_vec();
    assert_eq!(Frame::check(&bytes, 0).expect("complete"), 5);
    let (g, end) = Frame::parse(&bytes, 0).expect("parses");
    assert_eq!(end, 5);
    assert_eq!(g, Frame::Null);
    // the scan skips the marker bytes unexamined; parsing validates them
    let bytes = b"$-2\r\n".to_vec();
    assert_eq!(Frame::check(&bytes, 0).expect("complete"), 5);
    assert!(matches!(Frame::parse(&bytes, 0), Err(Error::Other(_))));
}

#[test]
fn invalid_utf8_simple_is_protocol_error() {
    let bytes = b"+ab\xff\r\n".to_vec();
    assert_eq!(Frame::check(&bytes, 0).expect("complete"), bytes.len());
    assert!(matches!(Frame::parse(&bytes, 0), Err(Error::Other(_))));
}

#[test]
fn integer_with_leading_zeros_parses() {
    let bytes = b":007\r\n".to_vec();
    let (g, _) = Frame::parse(&bytes, 0).expect("parses");
    assert_eq!(g, Frame::Integer(7));
}

#[test]
fn integer_overflow_is_protocol_error() {
    let bytes = b":18446744073709551616\r\n".to_vec();
    assert!(matches!(Frame::parse(&bytes, 0), Err(Error::Other(_))));
}

#[test]
fn parse_u64_cases() {
    assert_eq!(parse_u64(&b"0".to_vec()), Some(0));
    assert_eq!(parse_u64(&b"18446744073709551615".to_vec()), Some(u64::MAX));
    assert_eq!(parse_u64(&b"18446744073709551616".to_vec()), None);
    assert_eq!(parse_u64(&b"".to_vec()), None);
    assert_eq!(parse_u64(&b"12x".to_vec()), None);
}

#[test]
fn byte_helpers() {
    let buf = b"ab\r\ncd".to_vec();
    assert_eq!(peek_u8(&buf, 0).expect("peek"), b'a');
    assert_eq!(get_u8(&buf, 0).expect("get"), (b'a', 1));
    assert!(matches!(peek_u8(&buf, 6), Err(Error::Incomplete)));
    assert_eq!(skip(&buf, 1, 3).expect("skip"), 4);
    assert!(matches!(skip(&buf, 4, 3), Err(Error::Incomplete)));
    let (line, next) = get_line(&buf, 0).expect("line");
    assert_eq!(line, b"ab".to_vec());
    assert_eq!(next, 4);
    assert!(matches!(get_line(&buf, 4), Err(Error::Incomplete)));
    let buf = b"451\r\nx".to_vec();
    let (v, next) = get_decimal(&buf, 0).expect("decimal");
    assert_eq!((v, next), (451, 5));
}

#[test]
fn parse_mid_buffer() {
    let buf = b"+first\r\n:42\r\n".to_vec();
    let end = Frame::check(&buf, 0).expect("complete");
    assert_eq!(end, 8);
    let (g, end2) = Frame::parse(&buf, end).expect("parses");
    assert_eq!(g, Frame::Integer(42));
    assert_eq!(end2, buf.len());
}
