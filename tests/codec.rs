use redis_lite::codec::{
    decode_frame, decode_simple, decode_snapshot, encode_reply, encode_request, encode_snapshot,
    read_number_line, scan_decimal, Decoded, Piece, Reply, Scan,
};

fn frame(parts: &[&str]) -> Vec<Vec<u8>> {
    parts.iter().map(|p| p.as_bytes().to_vec()).collect()
}

#[test]
fn scan_reads_canonical_numerals() {
    assert_eq!(scan_decimal(b"123\r", 0, 1000), Scan::Number(123, 3));
    assert_eq!(scan_decimal(b"x0\r", 1, 1000), Scan::Number(0, 2));
    assert_eq!(scan_decimal(b"12", 0, 1000), Scan::Short);
    assert_eq!(scan_decimal(b"", 0, 1000), Scan::Short);
    assert_eq!(scan_decimal(b"012\r", 0, 1000), Scan::Bad);
    assert_eq!(scan_decimal(b"abc", 0, 1000), Scan::Bad);
    assert_eq!(scan_decimal(b"1001\r", 0, 1000), Scan::Bad);
    assert_eq!(scan_decimal(b"18446744073709551615 ", 0, u64::MAX), Scan::Number(u64::MAX, 20));
    assert_eq!(scan_decimal(b"18446744073709551616 ", 0, u64::MAX), Scan::Bad);
}

#[test]
fn number_line_needs_crlf() {
    assert_eq!(read_number_line(b"*42\r\n", 1, 100), Scan::Number(42, 5));
    assert_eq!(read_number_line(b"*42\r", 1, 100), Scan::Short);
    assert_eq!(read_number_line(b"*42\rx", 1, 100), Scan::Bad);
    assert_eq!(read_number_line(b"*42x", 1, 100), Scan::Bad);
}

#[test]
fn decodes_a_whole_frame() {
    let bytes = b"*2\r\n$4\r\nECHO\r\n$3\r\nhey\r\n";
    assert_eq!(decode_frame(bytes), Decoded::Frame(frame(&["ECHO", "hey"]), bytes.len()));
}

#[test]
fn leaves_trailing_bytes() {
    let bytes = b"*1\r\n$4\r\nPING\r\n*1\r\n$4\r\nPI";
    assert_eq!(decode_frame(bytes), Decoded::Frame(frame(&["PING"]), 14));
    assert_eq!(decode_frame(&bytes[14..]), Decoded::Incomplete);
}

#[test]
fn truncated_frames_are_incomplete() {
    let bytes = b"*3\r\n$3\r\nSET\r\n$1\r\nk\r\n$5\r\nvalue\r\n";
    for cut in 0..bytes.len() {
        assert_eq!(decode_frame(&bytes[..cut]), Decoded::Incomplete, "cut at {}", cut);
    }
    assert_eq!(decode_frame(bytes), Decoded::Frame(frame(&["SET", "k", "value"]), bytes.len()));
}

#[test]
fn malformed_frames_are_rejected() {
    assert_eq!(decode_frame(b"PING\r\n"), Decoded::Malformed);
    assert_eq!(decode_frame(b"*x\r\n"), Decoded::Malformed);
    assert_eq!(decode_frame(b"*1\r\n$x\r\n"), Decoded::Malformed);
    assert_eq!(decode_frame(b"*1\r\n+4\r\n"), Decoded::Malformed);
    // declared length shorter than the bytes present
    assert_eq!(decode_frame(b"*1\r\n$3\r\nPING\r\n"), Decoded::Malformed);
    assert_eq!(decode_frame(b"*01\r\n$4\r\nPING\r\n"), Decoded::Malformed);
    assert_eq!(decode_frame(b"*1\n"), Decoded::Malformed);
    // the byte after the payload is there and is no carriage return
    assert_eq!(decode_frame(b"*1\r\n$3\r\nabcX"), Decoded::Malformed);
    assert_eq!(decode_frame(b"*1\r\n$3\r\nabc\rX"), Decoded::Malformed);
    // counts and lengths past the limits
    assert_eq!(decode_frame(b"*1048577\r\n"), Decoded::Malformed);
    assert_eq!(decode_frame(b"*1\r\n$536870913\r\n"), Decoded::Malformed);
    assert_eq!(decode_frame(b"*1048576\r\n"), Decoded::Incomplete);
}

#[test]
fn empty_bulk_and_empty_frame() {
    assert_eq!(decode_frame(b"*0\r\n"), Decoded::Frame(vec![], 4));
    assert_eq!(decode_frame(b"*1\r\n$0\r\n\r\n"), Decoded::Frame(vec![vec![]], 10));
}

#[test]
fn encode_then_decode_round_trips() {
    let f = vec![b"SET".to_vec(), b"a b".to_vec(), vec![0u8, 13, 10, 255], vec![]];
    let bytes = encode_request(&f);
    assert_eq!(bytes, b"*4\r\n$3\r\nSET\r\n$3\r\na b\r\n$4\r\n\x00\r\n\xff\r\n$0\r\n\r\n".to_vec());
    let mut more = bytes.clone();
    more.extend_from_slice(b"*1");
    assert_eq!(decode_frame(&more), Decoded::Frame(f, bytes.len()));
}

#[test]
fn encodes_replies() {
    assert_eq!(encode_reply(&Reply::Simple(b"PONG".to_vec())), b"+PONG\r\n".to_vec());
    assert_eq!(encode_reply(&Reply::Bulk(b"hello".to_vec())), b"$5\r\nhello\r\n".to_vec());
    assert_eq!(encode_reply(&Reply::Bulk(vec![])), b"$0\r\n\r\n".to_vec());
    assert_eq!(encode_reply(&Reply::Null), b"$-1\r\n".to_vec());
    assert_eq!(encode_reply(&Reply::Error(b"ERR x".to_vec())), b"-ERR x\r\n".to_vec());
}

#[test]
fn snapshot_framing_has_no_terminator() {
    let blob = vec![1u8, 2, 3, 13, 10];
    let bytes = encode_snapshot(&blob);
    assert_eq!(bytes, b"$5\r\n\x01\x02\x03\r\n".to_vec());
    let mut more = bytes.clone();
    more.extend_from_slice(b"*1\r\n");
    assert_eq!(decode_snapshot(&more), Piece::Item(blob, bytes.len()));
    assert_eq!(decode_snapshot(&bytes[..bytes.len() - 1]), Piece::Incomplete);
    assert_eq!(decode_snapshot(b"+OK\r\n"), Piece::Malformed);
}

#[test]
fn reads_simple_replies() {
    assert_eq!(decode_simple(b"+PONG\r\nrest"), Piece::Item(b"PONG".to_vec(), 7));
    assert_eq!(decode_simple(b"+FULLRESYNC abc 0\r\n"), Piece::Item(b"FULLRESYNC abc 0".to_vec(), 19));
    assert_eq!(decode_simple(b"+PON"), Piece::Incomplete);
    assert_eq!(decode_simple(b"+PONG\r"), Piece::Incomplete);
    assert_eq!(decode_simple(b"-ERR\r\n"), Piece::Malformed);
    assert_eq!(decode_simple(b"+OK\rx"), Piece::Malformed);
}

#[test]
fn partial_snapshot_transfers() {
    assert_eq!(decode_snapshot(b""), Piece::Incomplete);
    assert_eq!(decode_snapshot(b"$"), Piece::Incomplete);
    assert_eq!(decode_snapshot(b"$1"), Piece::Incomplete);
    assert_eq!(decode_snapshot(b"$10\r\n"), Piece::Incomplete);
    assert_eq!(decode_snapshot(b"$10\r\nabc"), Piece::Incomplete);
    assert_eq!(decode_snapshot(b"$0\r\n"), Piece::Item(vec![], 4));
    assert_eq!(decode_snapshot(b"$x\r\n"), Piece::Malformed);
    assert_eq!(decode_snapshot(b"$01\r\na"), Piece::Malformed);
    assert_eq!(decode_snapshot(b"$1\r\r"), Piece::Malformed);
}

#[test]
fn partial_simple_replies() {
    assert_eq!(decode_simple(b""), Piece::Incomplete);
    assert_eq!(decode_simple(b"+"), Piece::Incomplete);
    assert_eq!(decode_simple(b"+\r\n"), Piece::Item(vec![], 3));
}
