//! The wire format: round trips, prefixes, and malformed input.

use my_redis::frame::{check, is_serializable, parse, serialize, Frame, FrameError};

fn roundtrip(f: Frame) {
    let bytes = serialize(&f);
    let len = check(bytes.as_slice()).expect("complete frame");
    assert_eq!(len, bytes.len());
    let back = parse(bytes.as_slice());
    assert_eq!(back, f);
}

#[test]
fn round_trip_simple() {
    roundtrip(Frame::Simple(b"OK".to_vec()));
    roundtrip(Frame::Simple(Vec::new()));
}

#[test]
fn round_trip_error() {
    roundtrip(Frame::Error(b"ERR unknown".to_vec()));
}

#[test]
fn round_trip_integer() {
    roundtrip(Frame::Integer(0));
    roundtrip(Frame::Integer(7));
    roundtrip(Frame::Integer(1234));
    roundtrip(Frame::Integer(u64::MAX));
}

#[test]
fn round_trip_null() {
    roundtrip(Frame::Null);
}

#[test]
fn round_trip_bulk() {
    roundtrip(Frame::Bulk(b"hello".to_vec()));
    roundtrip(Frame::Bulk(Vec::new()));
    // A payload is binary-safe: embedded CRLF pairs pass through.
    roundtrip(Frame::Bulk(b"a\r\nb\r\n".to_vec()));
    roundtrip(Frame::Bulk(vec![0u8, 255, 13, 10, 13, 10, 0]));
}

#[test]
fn serialize_exact_bytes() {
    assert_eq!(serialize(&Frame::Simple(b"OK".to_vec())), b"+OK\r\n".to_vec());
    assert_eq!(serialize(&Frame::Error(b"oops".to_vec())), b"-oops\r\n".to_vec());
    assert_eq!(serialize(&Frame::Integer(1234)), b":1234\r\n".to_vec());
    assert_eq!(serialize(&Frame::Integer(0)), b":0\r\n".to_vec());
    assert_eq!(serialize(&Frame::Null), b"$-1\r\n".to_vec());
    assert_eq!(serialize(&Frame::Bulk(b"bar".to_vec())), b"$3\r\nbar\r\n".to_vec());
}

#[test]
fn every_strict_prefix_is_incomplete() {
    let frames = vec![
        Frame::Simple(b"OK".to_vec()),
        Frame::Error(b"ERR".to_vec()),
        Frame::Integer(90210),
        Frame::Null,
        Frame::Bulk(b"a\r\nb".to_vec()),
    ];
    for f in frames {
        let bytes = serialize(&f);
        for i in 0..bytes.len() {
            assert_eq!(check(&bytes[..i]), Err(FrameError::Incomplete), "prefix {} of {:?}", i, bytes);
        }
    }
}

#[test]
fn array_prefix_is_incomplete() {
    let bytes = b"*2\r\n$3\r\nget\r\n$3\r\nfoo\r\n";
    for i in 0..bytes.len() {
        assert_eq!(check(&bytes[..i]), Err(FrameError::Incomplete));
    }
    assert_eq!(check(&bytes[..]), Ok(bytes.len()));
}

#[test]
fn parse_array_of_bulks() {
    let bytes = b"*2\r\n$3\r\nget\r\n$3\r\nfoo\r\n";
    let f = parse(&bytes[..]);
    match f {
        Frame::Array(els) => {
            assert_eq!(els.len(), 2);
            assert_eq!(els[0], Frame::Bulk(b"get".to_vec()));
            assert_eq!(els[1], Frame::Bulk(b"foo".to_vec()));
        }
        other => panic!("expected an array, got {:?}", other),
    }
}

#[test]
fn bad_leading_byte_is_a_format_error() {
    assert_eq!(check(b"hello\r\n"), Err(FrameError::Format));
}

#[test]
fn bad_null_literal_is_a_format_error() {
    assert_eq!(check(b"$-2\r\n"), Err(FrameError::Format));
}

#[test]
fn non_numeric_length_is_a_format_error() {
    assert_eq!(check(b":abc\r\n"), Err(FrameError::Format));
    assert_eq!(check(b"$x\r\n"), Err(FrameError::Format));
}

#[test]
fn integer_overflow_is_a_format_error() {
    // One more than the largest 64-bit value.
    assert_eq!(check(b":18446744073709551616\r\n"), Err(FrameError::Format));
    assert_eq!(check(b":18446744073709551615\r\n"), Ok(23));
}

#[test]
fn stray_line_break_is_a_format_error() {
    assert_eq!(check(b"+ab\ncd\r\n"), Err(FrameError::Format));
    assert_eq!(check(b"+ab\rcd\r\n"), Err(FrameError::Format));
}

#[test]
fn check_consumes_nothing_and_reports_length() {
    // Two frames back to back: check sees only the first.
    let bytes = b"+one\r\n:2\r\n";
    assert_eq!(check(&bytes[..]), Ok(6));
}

#[test]
fn array_with_missing_elements_is_incomplete() {
    assert_eq!(check(b"*2\r\n"), Err(FrameError::Incomplete));
    assert_eq!(check(b"*2\r\n$3\r\nget\r\n"), Err(FrameError::Incomplete));
    assert_eq!(check(b"*0\r\n"), Ok(4));
}

#[test]
fn nested_array_is_a_format_error() {
    assert_eq!(check(b"*1\r\n*0\r\n"), Err(FrameError::Format));
}

#[test]
fn empty_bulk_round_trips() {
    assert_eq!(check(b"$0\r\n\r\n"), Ok(6));
    assert_eq!(parse(b"$0\r\n\r\n"), Frame::Bulk(Vec::new()));
}

#[test]
fn bulk_without_its_terminator_is_a_format_error() {
    assert_eq!(check(b"$3\r\nbarX\r\n"), Err(FrameError::Format));
    assert_eq!(check(b"$3\r\nbar\rX\r\n"), Err(FrameError::Format));
}

#[test]
fn serializable_frames() {
    assert!(is_serializable(&Frame::Simple(b"OK".to_vec())));
    assert!(is_serializable(&Frame::Integer(5)));
    assert!(is_serializable(&Frame::Null));
    assert!(is_serializable(&Frame::Bulk(b"\r\n".to_vec())));
    assert!(!is_serializable(&Frame::Simple(b"a\rb".to_vec())));
    assert!(!is_serializable(&Frame::Array(Vec::new())));
}
