//! The connection's read loop, command dispatch, and the shared store.

use my_redis::command::{handle_frame, Command, CommandError};
use my_redis::connection::{ConnError, Connection};
use my_redis::frame::{serialize, Frame};
use my_redis::store::Store;

/// Drain every complete frame currently buffered.
fn drain(conn: &mut Connection) -> Vec<Frame> {
    let mut out = Vec::new();
    loop {
        match conn.try_parse_frame() {
            Ok(Some(f)) => out.push(f),
            Ok(None) => return out,
            Err(e) => panic!("format error while draining: {:?}", e),
        }
    }
}

#[test]
fn chunked_and_whole_feeds_agree() {
    let stream = b"+one\r\n:22\r\n$5\r\nthree\r\n*2\r\n$3\r\nget\r\n$1\r\nk\r\n$-1\r\n";

    let mut whole = Connection::new();
    whole.feed(stream);
    let all_at_once = drain(&mut whole);

    let mut pieces = Connection::new();
    let mut one_at_a_time = Vec::new();
    for b in stream.iter() {
        pieces.feed(&[*b]);
        one_at_a_time.extend(drain(&mut pieces));
    }

    assert_eq!(all_at_once, one_at_a_time);
    assert_eq!(all_at_once.len(), 5);
}

#[test]
fn one_frame_per_call() {
    let mut conn = Connection::new();
    conn.feed(b"+first\r\n+second\r\n");
    assert_eq!(conn.try_parse_frame(), Ok(Some(Frame::Simple(b"first".to_vec()))));
    assert_eq!(conn.try_parse_frame(), Ok(Some(Frame::Simple(b"second".to_vec()))));
    assert_eq!(conn.try_parse_frame(), Ok(None));
}

#[test]
fn clean_close_on_empty_buffer() {
    let conn = Connection::new();
    assert_eq!(conn.end_of_input(), Ok(None));
}

#[test]
fn reset_on_partial_frame_at_close() {
    let mut conn = Connection::new();
    conn.feed(b"+unterminated");
    assert_eq!(conn.try_parse_frame(), Ok(None));
    assert_eq!(conn.end_of_input(), Err(ConnError::Reset));
}

#[test]
fn format_error_surfaces_from_the_buffer() {
    let mut conn = Connection::new();
    conn.feed(b"hello\r\n");
    assert_eq!(conn.try_parse_frame(), Err(ConnError::Format));
}

fn command_frame(parts: &[&[u8]]) -> Frame {
    let mut els = Vec::new();
    let mut count = Vec::new();
    count.extend_from_slice(parts.len().to_string().as_bytes());
    let mut bytes = Vec::new();
    bytes.push(b'*');
    bytes.extend_from_slice(&count);
    bytes.extend_from_slice(b"\r\n");
    for p in parts {
        els.push(Frame::Bulk(p.to_vec()));
        bytes.push(b'$');
        bytes.extend_from_slice(p.len().to_string().as_bytes());
        bytes.extend_from_slice(b"\r\n");
        bytes.extend_from_slice(p);
        bytes.extend_from_slice(b"\r\n");
    }
    // Arrive at the frame the way a server does: through the buffer.
    let mut conn = Connection::new();
    conn.feed(&bytes);
    let f = conn.try_parse_frame().expect("well-formed").expect("complete");
    assert_eq!(f, Frame::Array(els));
    f
}

#[test]
fn set_then_get_end_to_end() {
    let mut store = Store::new();

    let set = command_frame(&[b"set", b"foo", b"bar"]);
    let resp = handle_frame(&set, &mut store).expect("supported");
    assert_eq!(resp, Frame::Simple(b"OK".to_vec()));
    assert_eq!(serialize(&resp), b"+OK\r\n".to_vec());

    let get = command_frame(&[b"get", b"foo"]);
    let resp = handle_frame(&get, &mut store).expect("supported");
    assert_eq!(resp, Frame::Bulk(b"bar".to_vec()));
    assert_eq!(serialize(&resp), b"$3\r\nbar\r\n".to_vec());

    let missing = command_frame(&[b"get", b"missing"]);
    let resp = handle_frame(&missing, &mut store).expect("supported");
    assert_eq!(resp, Frame::Null);
    assert_eq!(serialize(&resp), b"$-1\r\n".to_vec());
}

#[test]
fn command_names_match_case_insensitively() {
    let mut store = Store::new();
    let set = command_frame(&[b"SeT", b"k", b"v"]);
    assert_eq!(handle_frame(&set, &mut store), Ok(Frame::Simple(b"OK".to_vec())));
    let get = command_frame(&[b"GET", b"k"]);
    assert_eq!(handle_frame(&get, &mut store), Ok(Frame::Bulk(b"v".to_vec())));
}

#[test]
fn unsupported_command_is_refused() {
    let mut store = Store::new();
    let del = command_frame(&[b"del", b"foo"]);
    assert_eq!(Command::from_frame(&del), Err(CommandError::Unsupported));
    assert_eq!(handle_frame(&del, &mut store), Err(CommandError::Unsupported));

    // Wrong arity and non-array frames are refused the same way.
    let bare_get = command_frame(&[b"get"]);
    assert_eq!(handle_frame(&bare_get, &mut store), Err(CommandError::Unsupported));
    let too_many = command_frame(&[b"get", b"a", b"b"]);
    assert_eq!(handle_frame(&too_many, &mut store), Err(CommandError::Unsupported));
    let not_array = Frame::Simple(b"get".to_vec());
    assert_eq!(handle_frame(&not_array, &mut store), Err(CommandError::Unsupported));
}

#[test]
fn overwrite_keeps_one_whole_value() {
    let mut store = Store::new();
    let first = command_frame(&[b"set", b"k", b"AAAA"]);
    let second = command_frame(&[b"set", b"k", b"BB"]);
    handle_frame(&first, &mut store).expect("supported");
    handle_frame(&second, &mut store).expect("supported");
    let get = command_frame(&[b"get", b"k"]);
    // The read sees the later write entire, never a mixture.
    assert_eq!(handle_frame(&get, &mut store), Ok(Frame::Bulk(b"BB".to_vec())));

    let mut store2 = Store::new();
    handle_frame(&second, &mut store2).expect("supported");
    handle_frame(&first, &mut store2).expect("supported");
    assert_eq!(handle_frame(&get, &mut store2), Ok(Frame::Bulk(b"AAAA".to_vec())));
}

#[test]
fn disjoint_keys_do_not_interfere() {
    let mut store = Store::new();
    // Two handlers interleave their operations on disjoint keys.
    let a_set1 = command_frame(&[b"set", b"a", b"1"]);
    let b_set1 = command_frame(&[b"set", b"b", b"x"]);
    let a_set2 = command_frame(&[b"set", b"a", b"2"]);
    let a_get = command_frame(&[b"get", b"a"]);
    let b_get = command_frame(&[b"get", b"b"]);

    handle_frame(&a_set1, &mut store).expect("supported");
    handle_frame(&b_set1, &mut store).expect("supported");
    assert_eq!(handle_frame(&a_get, &mut store), Ok(Frame::Bulk(b"1".to_vec())));
    handle_frame(&a_set2, &mut store).expect("supported");
    assert_eq!(handle_frame(&b_get, &mut store), Ok(Frame::Bulk(b"x".to_vec())));
    assert_eq!(handle_frame(&a_get, &mut store), Ok(Frame::Bulk(b"2".to_vec())));
}

#[test]
fn store_get_and_set_directly() {
    let mut store = Store::new();
    assert!(store.get(b"k").is_none());
    store.set(b"k".to_vec(), b"v".to_vec());
    assert_eq!(store.get(b"k").map(|v| v.clone()), Some(b"v".to_vec()));
    store.set(b"k".to_vec(), b"w".to_vec());
    assert_eq!(store.get(b"k").map(|v| v.clone()), Some(b"w".to_vec()));
    assert!(store.get(b"other").is_none());
}
