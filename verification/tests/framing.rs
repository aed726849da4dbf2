use dns2tor::framing::{decode_frame, encode_frame, prefix_len, MAX_FRAME_LEN};

fn round_trip(len: usize) {
    let payload: Vec<u8> = (0..len).map(|i| (i % 251) as u8).collect();
    let framed = encode_frame(&payload).expect("length fits the prefix");
    assert_eq!(framed.len(), len + 2);
    assert_eq!(framed[0], (len / 256) as u8);
    assert_eq!(framed[1], (len % 256) as u8);
    let back = decode_frame(&framed).expect("a fresh frame decodes");
    assert_eq!(back, payload);
}

#[test]
fn round_trip_empty() {
    round_trip(0);
}

#[test]
fn round_trip_one_byte() {
    round_trip(1);
}

#[test]
fn round_trip_datagram_sized() {
    round_trip(512);
}

#[test]
fn round_trip_largest() {
    round_trip(65535);
}

#[test]
fn oversized_payload_cannot_be_framed() {
    let payload = vec![0u8; MAX_FRAME_LEN + 1];
    assert_eq!(encode_frame(&payload), None);
}

#[test]
fn exact_bytes_of_a_small_frame() {
    let framed = encode_frame(&vec![0xAB, 0xCD]).unwrap();
    assert_eq!(framed, vec![0x00, 0x02, 0xAB, 0xCD]);
}

#[test]
fn prefix_is_big_endian() {
    assert_eq!(prefix_len(0x01, 0x02), 258);
    assert_eq!(prefix_len(0x00, 0x00), 0);
    assert_eq!(prefix_len(0xFF, 0xFF), 65535);
    let framed = encode_frame(&vec![0u8; 512]).unwrap();
    assert_eq!((framed[0], framed[1]), (0x02, 0x00));
}

#[test]
fn too_short_or_mismatched_buffers_do_not_decode() {
    assert_eq!(decode_frame(&vec![]), None);
    assert_eq!(decode_frame(&vec![0x00]), None);
    // Declares one payload byte but carries two.
    assert_eq!(decode_frame(&vec![0x00, 0x01, 0xAA, 0xBB]), None);
    // Declares two payload bytes but carries one.
    assert_eq!(decode_frame(&vec![0x00, 0x02, 0xAA]), None);
    // A bare prefix declaring zero bytes is a complete frame.
    assert_eq!(decode_frame(&vec![0x00, 0x00]), Some(vec![]));
}
