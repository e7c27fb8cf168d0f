use framing::connection::Connection;
use framing::frame::{Frame, FrameError};

#[test]
fn parse_frame_consumes_exactly_one_frame() {
    let mut conn = Connection::new();
    conn.feed(b"+first\r\n:42\r\n");
    assert_eq!(conn.parse_frame(), Ok(Some(Frame::Simple(b"first".to_vec()))));
    // What stays buffered is exactly the second frame's bytes, unmodified.
    assert_eq!(conn.buffered(), b":42\r\n".to_vec());
    assert_eq!(conn.parse_frame(), Ok(Some(Frame::Integer(42))));
    assert_eq!(conn.buffered_len(), 0);
}

#[test]
fn parse_frame_keeps_buffer_on_incomplete() {
    let mut conn = Connection::new();
    conn.feed(b"$5\r\nab");
    assert_eq!(conn.parse_frame(), Ok(None));
    assert_eq!(conn.buffered(), b"$5\r\nab".to_vec());
}

#[test]
fn truncated_bulk_is_a_reset_not_a_clean_end() {
    let mut conn = Connection::new();
    let chunks = vec![b"$5\r\nab".to_vec()];
    assert_eq!(conn.read_frame(&chunks), Err(FrameError::ConnectionReset));
}

#[test]
fn closing_with_empty_buffer_is_a_clean_end() {
    let mut conn = Connection::new();
    let chunks: Vec<Vec<u8>> = Vec::new();
    assert_eq!(conn.read_frame(&chunks), Ok(None));
}

#[test]
fn end_of_stream_distinguishes_clean_from_reset() {
    let mut conn = Connection::new();
    assert_eq!(conn.end_of_stream(), Ok(None));
    conn.feed(b"+par");
    assert_eq!(conn.end_of_stream(), Err(FrameError::ConnectionReset));
}

#[test]
fn one_byte_at_a_time_still_decodes() {
    let mut conn = Connection::new();
    let wire = b":1234\r\n";
    let chunks: Vec<Vec<u8>> = wire.iter().map(|b| vec![*b]).collect();
    assert_eq!(conn.read_frame(&chunks), Ok(Some(Frame::Integer(1234))));
    assert_eq!(conn.buffered_len(), 0);
}

#[test]
fn frames_come_out_in_wire_order() {
    let mut conn = Connection::new();
    let chunks = vec![b"+one\r\n-two\r\n$5\r\nthree\r\n".to_vec()];
    assert_eq!(conn.read_frame(&chunks), Ok(Some(Frame::Simple(b"one".to_vec()))));
    let no_more: Vec<Vec<u8>> = Vec::new();
    assert_eq!(conn.read_frame(&no_more), Ok(Some(Frame::Error(b"two".to_vec()))));
    assert_eq!(conn.read_frame(&no_more), Ok(Some(Frame::Bulk(b"three".to_vec()))));
    assert_eq!(conn.read_frame(&no_more), Ok(None));
}

#[test]
fn malformed_bytes_fail_without_reading_more() {
    let mut conn = Connection::new();
    conn.feed(b"%nonsense");
    // Chunks are available, but a malformed judgment must not consult them.
    let chunks = vec![b"+OK\r\n".to_vec()];
    assert_eq!(conn.read_frame(&chunks), Err(FrameError::Malformed));
    assert_eq!(conn.buffered(), b"%nonsense".to_vec());
}

#[test]
fn array_frames_fail_loudly_on_read() {
    let mut conn = Connection::new();
    conn.feed(b"*3\r\n");
    assert_eq!(conn.parse_frame(), Err(FrameError::Unsupported));
}

#[test]
fn bulk_over_connection_limit_is_malformed() {
    let mut conn = Connection::with_limit(4);
    conn.feed(b"$5\r\nhello\r\n");
    assert_eq!(conn.parse_frame(), Err(FrameError::Malformed));
}

#[test]
fn write_frame_yields_the_wire_bytes() {
    let conn = Connection::new();
    assert_eq!(conn.write_frame(&Frame::Integer(42)), Ok(b":42\r\n".to_vec()));
    assert_eq!(conn.write_frame(&Frame::Null), Ok(b"$-1\r\n".to_vec()));
    assert_eq!(
        conn.write_frame(&Frame::Bulk(b"foo".to_vec())),
        Ok(b"$3\r\nfoo\r\n".to_vec())
    );
    assert_eq!(
        conn.write_frame(&Frame::Array(Vec::new())),
        Err(FrameError::Unsupported)
    );
}

#[test]
fn written_frames_read_back() {
    let mut conn = Connection::new();
    let frames = vec![
        Frame::Simple(b"PING".to_vec()),
        Frame::Integer(7),
        Frame::Null,
        Frame::Bulk(b"payload".to_vec()),
    ];
    for f in &frames {
        let wire = conn.write_frame(f).unwrap();
        conn.feed(&wire);
    }
    for f in &frames {
        assert_eq!(conn.parse_frame().unwrap().unwrap(), *f);
    }
    assert_eq!(conn.buffered_len(), 0);
}
