use client_core::envelope::decode_envelope;
use client_core::envelope::encode_envelope;
use client_core::envelope::MAX_FRAME_SIZE;

#[test]
fn envelope_has_big_endian_id_then_payload() {
    let bytes = encode_envelope(0x0102_0304, &[0xAA, 0xBB]);
    assert_eq!(bytes, vec![0x01, 0x02, 0x03, 0x04, 0xAA, 0xBB]);
}

#[test]
fn envelope_of_empty_payload_is_just_the_id() {
    let bytes = encode_envelope(7, &[]);
    assert_eq!(bytes, vec![0, 0, 0, 7]);
}

#[test]
fn envelope_round_trips() {
    let payload: Vec<u8> = (0..=255).collect();
    let bytes = encode_envelope(0xDEAD_BEEF, &payload);
    let (id, decoded) = decode_envelope(&bytes).expect("a well-formed envelope decodes");
    assert_eq!(id, 0xDEAD_BEEF);
    assert_eq!(decoded, payload);
}

#[test]
fn short_data_is_not_an_envelope() {
    assert!(decode_envelope(&[]).is_none());
    assert!(decode_envelope(&[1, 2, 3]).is_none());
}

#[test]
fn four_bytes_decode_to_id_and_empty_payload() {
    let (id, payload) = decode_envelope(&[0, 0, 1, 0]).unwrap();
    assert_eq!(id, 256);
    assert!(payload.is_empty());
}

#[test]
fn frame_ceiling_is_ten_mebibytes() {
    assert_eq!(MAX_FRAME_SIZE, 10 * 1024 * 1024);
}
