use localsend_relay::frame::{decode_data, encode_data};

#[test]
fn encode_puts_big_endian_id_before_payload() {
    let id: u128 = 0x0102030405060708090a0b0c0d0e0f10;
    let frame = encode_data(id, b"xyz");
    assert_eq!(
        frame,
        vec![1, 2, 3, 4, 5, 6, 7, 8, 9, 10, 11, 12, 13, 14, 15, 16, b'x', b'y', b'z']
    );
}

#[test]
fn decode_reads_back_encoded_frame() {
    let id: u128 = 0xdeadbeef_00000000_12345678_ffffffff;
    let frame = encode_data(id, b"payload");
    let (got, payload) = decode_data(&frame).unwrap();
    assert_eq!(got, id);
    assert_eq!(payload, b"payload");
}

#[test]
fn decode_frame_of_exactly_an_id_has_empty_payload() {
    let frame = [0xffu8; 16];
    let (got, payload) = decode_data(&frame).unwrap();
    assert_eq!(got, u128::MAX);
    assert!(payload.is_empty());
}

#[test]
fn decode_short_frame_is_none() {
    assert!(decode_data(&[0u8; 15]).is_none());
    assert!(decode_data(&[]).is_none());
}
