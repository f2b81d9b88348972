use drips::codec::Metadata;
use drips::protocol::{build_frame, receive_frame, ProtocolError};

fn frame_for(name: &str, size: u64, payload: &[u8]) -> Vec<u8> {
    build_frame(
        &Metadata {
            name: name.to_string(),
            size,
        },
        payload,
    )
}

fn receive_ok(bytes: &[u8]) -> (Metadata, Vec<u8>) {
    receive_frame(bytes).expect("frame should be accepted")
}

#[test]
fn frame_round_trip_empty_payload() {
    let frame = frame_for("empty.bin", 0, &[]);
    let (md, payload) = receive_ok(&frame);
    assert_eq!(md.name, "empty.bin");
    assert_eq!(md.size, 0);
    assert!(payload.is_empty());
}

#[test]
fn frame_round_trip_single_byte() {
    let frame = frame_for("one.bin", 1, &[0xAB]);
    let (md, payload) = receive_ok(&frame);
    assert_eq!(md.name, "one.bin");
    assert_eq!(md.size, 1);
    assert_eq!(payload, vec![0xAB]);
}

#[test]
fn frame_round_trip_multi_megabyte() {
    let content: Vec<u8> = (0..2 * 1024 * 1024u32).map(|i| (i % 251) as u8).collect();
    let frame = frame_for("big.bin", content.len() as u64, &content);
    let (md, payload) = receive_ok(&frame);
    assert_eq!(md.name, "big.bin");
    assert_eq!(md.size, content.len() as u64);
    assert_eq!(payload, content);
}

#[test]
fn frame_round_trip_payload_full_of_delimiters() {
    let content = vec![b'\n'; 100];
    let frame = frame_for("newlines.txt", 100, &content);
    let (md, payload) = receive_ok(&frame);
    assert_eq!(md.name, "newlines.txt");
    assert_eq!(payload, content);
}

#[test]
fn truncated_metadata_rejected() {
    // Close the connection anywhere before the delimiter: every such
    // prefix is rejected as truncated, never accepted and never panics.
    let frame = frame_for("hello.txt", 10, b"0123456789");
    let metadata_len = frame.iter().position(|&b| b == b'\n').unwrap();
    for k in 0..=metadata_len {
        assert_eq!(
            receive_frame(&frame[..k]),
            Err(ProtocolError::TruncatedMetadata),
            "prefix of length {k} was not rejected as truncated"
        );
    }
}

#[test]
fn empty_stream_rejected() {
    assert_eq!(
        receive_frame(&[]),
        Err(ProtocolError::TruncatedMetadata)
    );
}

#[test]
fn malformed_metadata_rejected() {
    let mut bytes = b"garbage".to_vec();
    bytes.push(b'\n');
    bytes.extend_from_slice(b"payload");
    assert_eq!(
        receive_frame(&bytes),
        Err(ProtocolError::MalformedMetadata)
    );
}

#[test]
fn declared_size_zero_still_delivers_payload() {
    // The size field is advisory: a sender declaring size 0 that then
    // sends 10 bytes still gets all 10 bytes delivered.
    let frame = frame_for("hello.txt", 0, b"0123456789");
    let (md, payload) = receive_ok(&frame);
    assert_eq!(md.size, 0);
    assert_eq!(payload, b"0123456789".to_vec());
}

#[test]
fn declared_size_too_large_still_delivers_payload() {
    let frame = frame_for("short.txt", 999, b"abc");
    let (md, payload) = receive_ok(&frame);
    assert_eq!(md.size, 999);
    assert_eq!(payload, b"abc".to_vec());
}

#[test]
fn end_to_end_hello_scenario() {
    // One 10-byte file named hello.txt containing "0123456789": the bytes
    // the sender puts on the wire come back to the receiver as exactly
    // that name and content.
    let frame = frame_for("hello.txt", 10, b"0123456789");
    let (md, payload) = receive_ok(&frame);
    assert_eq!(md.name, "hello.txt");
    assert_eq!(md.size, 10);
    assert_eq!(payload, b"0123456789".to_vec());
}
