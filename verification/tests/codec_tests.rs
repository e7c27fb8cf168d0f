use framing::codec::{check, encode, parse, Check};
use framing::frame::{Frame, FrameError};

const MAX: u64 = 536870912;

fn decode_all(bytes: &[u8]) -> (Frame, usize) {
    match check(bytes, MAX) {
        Check::Complete(len) => {
            let (frame, consumed) = parse(bytes, MAX);
            assert_eq!(consumed, len);
            (frame, consumed)
        }
        other => panic!("expected a complete frame, got {:?}", other),
    }
}

#[test]
fn encode_integer_forty_two() {
    let out = encode(&Frame::Integer(42)).unwrap();
    assert_eq!(out, b":42\r\n".to_vec());
}

#[test]
fn decode_simple_ok() {
    let (frame, consumed) = decode_all(b"+OK\r\n");
    assert_eq!(frame, Frame::Simple(b"OK".to_vec()));
    assert_eq!(consumed, 5);
}

#[test]
fn decode_null() {
    let (frame, consumed) = decode_all(b"$-1\r\n");
    assert_eq!(frame, Frame::Null);
    assert_eq!(consumed, 5);
}

#[test]
fn decode_bulk_foo() {
    let (frame, consumed) = decode_all(b"$3\r\nfoo\r\n");
    assert_eq!(frame, Frame::Bulk(vec![102, 111, 111]));
    assert_eq!(consumed, 9);
}

#[test]
fn round_trip_all_variants() {
    let frames = vec![
        Frame::Simple(b"PONG".to_vec()),
        Frame::Simple(Vec::new()),
        Frame::Error(b"ERR unknown command".to_vec()),
        Frame::Integer(0),
        Frame::Integer(9),
        Frame::Integer(10),
        Frame::Integer(18446744073709551615),
        Frame::Null,
        Frame::Bulk(Vec::new()),
        Frame::Bulk(b"hello world".to_vec()),
        Frame::Bulk(b"\r\n$5\r\n".to_vec()),
    ];
    for f in frames {
        let wire = encode(&f).unwrap();
        let (back, consumed) = decode_all(&wire);
        assert_eq!(consumed, wire.len());
        assert_eq!(back, f);
    }
}

#[test]
fn every_strict_prefix_is_incomplete() {
    let encodings: Vec<Vec<u8>> = vec![
        b"+OK\r\n".to_vec(),
        b"-oops\r\n".to_vec(),
        b":1234\r\n".to_vec(),
        b"$-1\r\n".to_vec(),
        b"$3\r\nfoo\r\n".to_vec(),
        b"$0\r\n\r\n".to_vec(),
    ];
    for wire in encodings {
        for cut in 0..wire.len() {
            assert_eq!(check(&wire[..cut], MAX), Check::Incomplete, "cut at {}", cut);
        }
        assert_eq!(check(&wire, MAX), Check::Complete(wire.len()));
    }
}

#[test]
fn unknown_tag_is_malformed_no_matter_what_follows() {
    assert_eq!(check(b"%", MAX), Check::Malformed);
    assert_eq!(check(b"%lots and lots of bytes\r\n", MAX), Check::Malformed);
    assert_eq!(check(b"\x00+OK\r\n", MAX), Check::Malformed);
}

#[test]
fn array_tag_is_unsupported() {
    assert_eq!(check(b"*", MAX), Check::Unsupported);
    assert_eq!(check(b"*2\r\n+a\r\n+b\r\n", MAX), Check::Unsupported);
}

#[test]
fn encode_array_is_unsupported() {
    let arr = Frame::Array(vec![Frame::Integer(1), Frame::Null]);
    assert_eq!(encode(&arr), Err(FrameError::Unsupported));
}

#[test]
fn integer_line_must_be_a_valid_number() {
    assert_eq!(check(b":12a\r\n", MAX), Check::Malformed);
    assert_eq!(check(b":\r\n", MAX), Check::Malformed);
    assert_eq!(check(b":-1\r\n", MAX), Check::Malformed);
    assert_eq!(check(b":18446744073709551616\r\n", MAX), Check::Malformed);
    assert_eq!(check(b":18446744073709551615\r\n", MAX), Check::Complete(23));
}

#[test]
fn bulk_needs_exact_trailing_terminator() {
    assert_eq!(check(b"$3\r\nfooXY", MAX), Check::Malformed);
    assert_eq!(check(b"$3\r\nfoo\rX", MAX), Check::Malformed);
    assert_eq!(check(b"$3\r\nfoo\r", MAX), Check::Incomplete);
}

#[test]
fn bulk_length_must_be_a_valid_number() {
    assert_eq!(check(b"$x\r\nfoo\r\n", MAX), Check::Malformed);
    assert_eq!(check(b"$-2\r\n", MAX), Check::Malformed);
}

#[test]
fn bulk_length_over_the_ceiling_is_malformed() {
    assert_eq!(check(b"$5\r\nhello\r\n", 4), Check::Malformed);
    assert_eq!(check(b"$5\r\nhello\r\n", 5), Check::Complete(11));
}

#[test]
fn stray_line_breaks_are_malformed() {
    assert_eq!(check(b"+ab\nc\r\n", MAX), Check::Malformed);
    assert_eq!(check(b"+ab\rc\r\n", MAX), Check::Malformed);
    assert_eq!(check(b"+ab\r", MAX), Check::Incomplete);
}

#[test]
fn wf_rejects_line_breaks_in_text_frames() {
    assert!(Frame::Simple(b"fine".to_vec()).is_wf());
    assert!(!Frame::Simple(b"a\rb".to_vec()).is_wf());
    assert!(!Frame::Error(b"a\nb".to_vec()).is_wf());
    assert!(Frame::Bulk(b"\r\n".to_vec()).is_wf());
    assert!(Frame::Null.is_wf());
}
