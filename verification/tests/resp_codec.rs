use miniredis::resp::{decode_all, encode, parse_frame, Frame};

fn bulk(s: &str) -> Frame {
    Frame::Bulk(s.as_bytes().to_vec())
}

#[test]
fn encode_simple_string() {
    let f = Frame::Simple(b"OK".to_vec());
    assert_eq!(encode(&f), b"+OK\r\n".to_vec());
}

#[test]
fn encode_bulk_string() {
    assert_eq!(encode(&bulk("hello")), b"$5\r\nhello\r\n".to_vec());
    assert_eq!(encode(&bulk("")), b"$0\r\n\r\n".to_vec());
}

#[test]
fn encode_null_bulk() {
    assert_eq!(encode(&Frame::NullBulk), b"$-1\r\n".to_vec());
}

#[test]
fn encode_array() {
    let f = Frame::Array(vec![bulk("ECHO"), bulk("hey")]);
    assert_eq!(encode(&f), b"*2\r\n$4\r\nECHO\r\n$3\r\nhey\r\n".to_vec());
}

#[test]
fn decode_single_frame() {
    let frames = decode_all(&b"+PONG\r\n".to_vec());
    assert_eq!(frames.len(), 1);
    match &frames[0] {
        Frame::Simple(s) => assert_eq!(s, &b"PONG".to_vec()),
        _ => panic!("expected a simple string"),
    }
}

#[test]
fn decode_bulk_by_byte_count() {
    // The payload may contain CR and LF: it is read by count, not by line.
    let frames = decode_all(&b"$4\r\na\r\nb\r\n".to_vec());
    assert_eq!(frames.len(), 1);
    match &frames[0] {
        Frame::Bulk(s) => assert_eq!(s, &b"a\r\nb".to_vec()),
        _ => panic!("expected a bulk string"),
    }
}

#[test]
fn decode_null_bulk() {
    let frames = decode_all(&b"$-1\r\n".to_vec());
    assert_eq!(frames.len(), 1);
    assert!(matches!(frames[0], Frame::NullBulk));
}

#[test]
fn decode_pipelined_frames() {
    let frames = decode_all(&b"*1\r\n$4\r\nPING\r\n*1\r\n$4\r\nPING\r\n".to_vec());
    assert_eq!(frames.len(), 2);
}

#[test]
fn decode_abandons_truncated_tail() {
    // One whole frame, then a truncated one: the tail is dropped.
    let frames = decode_all(&b"+OK\r\n$5\r\nhel".to_vec());
    assert_eq!(frames.len(), 1);
}

#[test]
fn decode_rejects_unknown_type_byte() {
    assert_eq!(decode_all(&b":5\r\n+OK\r\n".to_vec()).len(), 0);
}

#[test]
fn decode_rejects_bad_bulk_terminator() {
    // Four payload bytes not followed by CRLF.
    assert_eq!(decode_all(&b"$4\r\nabcdXX".to_vec()).len(), 0);
}

#[test]
fn decode_accepts_leading_zero_length() {
    let frames = decode_all(&b"$005\r\nhello\r\n".to_vec());
    assert_eq!(frames.len(), 1);
}

#[test]
fn decode_rejects_huge_length() {
    assert_eq!(decode_all(&b"$99999999999999999999\r\nx\r\n".to_vec()).len(), 0);
}

#[test]
fn round_trip_nested_array() {
    let f = Frame::Array(vec![
        Frame::Array(vec![bulk("GET"), bulk("k")]),
        Frame::Simple(b"OK".to_vec()),
        Frame::NullBulk,
    ]);
    let bytes = encode(&f);
    let (g, used) = parse_frame(&bytes, 0).expect("round trip parses");
    assert_eq!(used, bytes.len());
    assert_eq!(encode(&g), bytes);
}

#[test]
fn parse_frame_reports_consumed_position() {
    let buf = b"+OK\r\n+KO\r\n".to_vec();
    let (_, p) = parse_frame(&buf, 0).unwrap();
    assert_eq!(p, 5);
    let (f2, p2) = parse_frame(&buf, p).unwrap();
    assert_eq!(p2, 10);
    match f2 {
        Frame::Simple(s) => assert_eq!(s, b"KO".to_vec()),
        _ => panic!("expected a simple string"),
    }
}
