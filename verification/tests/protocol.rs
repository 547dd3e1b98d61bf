use crdt_lib::protocol::{decode_length, encode_frame};

#[test]
fn frame_starts_with_big_endian_length() {
    let frame = encode_frame(b"abc").unwrap();
    assert_eq!(frame, vec![0, 0, 0, 3, b'a', b'b', b'c']);
}

#[test]
fn empty_payload_frames_to_a_zero_header() {
    assert_eq!(encode_frame(&[]).unwrap(), vec![0, 0, 0, 0]);
}

#[test]
fn header_length_is_big_endian() {
    assert_eq!(decode_length([0, 0, 1, 2]), 258);
    assert_eq!(decode_length([1, 0, 0, 0]), 16_777_216);
    assert_eq!(decode_length([0xFF, 0xFF, 0xFF, 0xFF]), u32::MAX);
}

#[test]
fn frame_header_announces_payload_length() {
    let payload: Vec<u8> = (0..300u32).map(|i| (i % 251) as u8).collect();
    let frame = encode_frame(&payload).unwrap();
    let header = [frame[0], frame[1], frame[2], frame[3]];
    assert_eq!(decode_length(header), 300);
    assert_eq!(&frame[4..], &payload[..]);
}
