use wsframe::error::WsError;
use wsframe::frame::{apply_mask, decode_message, encode_frame, encode_message, TEXT_OPCODE};

fn sample(len: usize) -> Vec<u8> {
    (0..len).map(|i| (i % 251) as u8).collect()
}

fn assert_round_trip(len: usize) {
    let m = sample(len);
    let wire = encode_message(&m);
    let d = decode_message(&wire).unwrap();
    assert_eq!(d.payload, m);
    assert_eq!(d.consumed, wire.len());
    assert_eq!(d.opcode, TEXT_OPCODE);
}

#[test]
fn round_trip_empty() {
    assert_round_trip(0);
}

#[test]
fn round_trip_125() {
    assert_round_trip(125);
}

#[test]
fn round_trip_126() {
    assert_round_trip(126);
}

#[test]
fn round_trip_65535() {
    assert_round_trip(65535);
}

#[test]
fn round_trip_65536() {
    assert_round_trip(65536);
}

#[test]
fn round_trip_two_million() {
    assert_round_trip(2_000_000);
}

#[test]
fn short_message_uses_one_length_byte() {
    assert_eq!(encode_message(b"hi"), vec![0x81, 2, b'h', b'i']);
    let w = encode_message(&sample(125));
    assert_eq!(w[1], 125);
    assert_eq!(w.len(), 2 + 125);
}

#[test]
fn medium_message_uses_two_byte_big_endian_length() {
    let w = encode_message(&sample(126));
    assert_eq!(&w[..4], &[0x81, 126, 0x00, 0x7e]);
    assert_eq!(w.len(), 4 + 126);
    let w = encode_message(&sample(65535));
    assert_eq!(&w[..4], &[0x81, 126, 0xff, 0xff]);
    assert_eq!(w.len(), 4 + 65535);
}

#[test]
fn long_message_uses_eight_byte_big_endian_length() {
    let w = encode_message(&sample(65536));
    assert_eq!(&w[..10], &[0x81, 127, 0, 0, 0, 0, 0, 1, 0, 0]);
    assert_eq!(w.len(), 10 + 65536);
}

#[test]
fn mask_then_unmask_gives_payload() {
    let key = [0x37, 0xfa, 0x21, 0x3d];
    let p = b"Hello, masked world".to_vec();
    let masked = apply_mask(&p, &key);
    assert_ne!(masked, p);
    assert_eq!(masked[0], b'H' ^ 0x37);
    assert_eq!(masked[5], b',' ^ 0xfa);
    assert_eq!(apply_mask(&masked, &key), p);
}

#[test]
fn masked_client_frame_decodes() {
    // The masked "Hello" frame of the protocol's worked example.
    let wire = [0x81, 0x85, 0x37, 0xfa, 0x21, 0x3d, 0x7f, 0x9f, 0x4d, 0x51, 0x58];
    let d = decode_message(&wire).unwrap();
    assert_eq!(d.payload, b"Hello".to_vec());
    assert_eq!(d.opcode, 1);
    assert_eq!(d.consumed, wire.len());
    assert_eq!(encode_frame(true, 1, Some([0x37, 0xfa, 0x21, 0x3d]), b"Hello"), wire.to_vec());
}

#[test]
fn fragments_reassemble_into_one_message() {
    let key = [1, 2, 3, 4];
    let mut wire = encode_frame(false, 1, Some(key), b"Hel");
    wire.extend(encode_frame(false, 0, None, b"lo, "));
    wire.extend(encode_frame(true, 0, Some(key), b"world"));
    let total = wire.len();
    wire.extend(encode_message(b"next"));
    let d = decode_message(&wire).unwrap();
    let single = encode_frame(true, 1, None, b"Hello, world");
    assert_eq!(d.payload, decode_message(&single).unwrap().payload);
    assert_eq!(d.payload, b"Hello, world".to_vec());
    assert_eq!(d.consumed, total);
    assert_eq!(decode_message(&wire[total..]).unwrap().payload, b"next".to_vec());
}

#[test]
fn unmasked_frame_is_accepted() {
    let d = decode_message(&[0x81, 3, b'a', b'b', b'c']).unwrap();
    assert_eq!(d.payload, b"abc".to_vec());
}

#[test]
fn truncated_input_is_reported() {
    let wire = encode_message(&sample(300));
    assert_eq!(decode_message(&[]).err(), Some(WsError::StreamTruncated));
    assert_eq!(decode_message(&wire[..1]).err(), Some(WsError::StreamTruncated));
    assert_eq!(decode_message(&wire[..3]).err(), Some(WsError::StreamTruncated));
    assert_eq!(decode_message(&wire[..wire.len() - 1]).err(), Some(WsError::StreamTruncated));
    let first = encode_frame(false, 1, None, b"part");
    assert_eq!(decode_message(&first).err(), Some(WsError::StreamTruncated));
}

#[test]
fn masked_frame_missing_key_bytes_is_truncated() {
    assert_eq!(decode_message(&[0x81, 0x85, 1, 2]).err(), Some(WsError::StreamTruncated));
}
