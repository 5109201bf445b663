use client_core::control::decode_control_frame;
use client_core::control::encode_control_frame;
use client_core::control::frame_control_message;
use client_core::control::read_control_length;
use client_core::control::ControlFrame;
use client_core::envelope::MAX_FRAME_SIZE;
use client_core::errors::NetworkError;

#[test]
fn connect_frame_round_trips() {
    let frame = ControlFrame::Connect { user_id: String::from("alice") };
    let bytes = encode_control_frame(&frame);
    assert_eq!(bytes, vec![1, b'a', b'l', b'i', b'c', b'e']);
    let decoded = decode_control_frame(&bytes).expect("connect decodes");
    assert_eq!(decoded, frame);
}

#[test]
fn connect_frame_keeps_non_ascii_user_ids() {
    let frame = ControlFrame::Connect { user_id: String::from("héllo-κόσμος") };
    let bytes = encode_control_frame(&frame);
    let decoded = decode_control_frame(&bytes).expect("valid UTF-8 decodes");
    match decoded {
        ControlFrame::Connect { user_id } => assert_eq!(user_id, "héllo-κόσμος"),
        other => panic!("wrong frame: {:?}", other),
    }
}

#[test]
fn accept_frame_round_trips_opaque_session_info() {
    let frame = ControlFrame::Accept { session_info: vec![0, 159, 146, 150] };
    let bytes = encode_control_frame(&frame);
    assert_eq!(bytes, vec![2, 0, 159, 146, 150]);
    assert_eq!(decode_control_frame(&bytes).unwrap(), frame);
}

#[test]
fn reject_frame_round_trips_reason() {
    let frame = ControlFrame::Reject { reason: String::from("no seat") };
    let bytes = encode_control_frame(&frame);
    let decoded = decode_control_frame(&bytes).unwrap();
    match decoded {
        ControlFrame::Reject { reason } => assert_eq!(reason, "no seat"),
        other => panic!("wrong frame: {:?}", other),
    }
}

#[test]
fn stats_report_has_three_big_endian_counters() {
    let frame = ControlFrame::StatsReport { latency_ms: 1, bytes_sent: 2, bytes_received: 3 };
    let bytes = encode_control_frame(&frame);
    let mut expected = vec![4u8];
    expected.extend_from_slice(&[0, 0, 0, 0, 0, 0, 0, 1]);
    expected.extend_from_slice(&[0, 0, 0, 0, 0, 0, 0, 2]);
    expected.extend_from_slice(&[0, 0, 0, 0, 0, 0, 0, 3]);
    assert_eq!(bytes, expected);
    assert_eq!(decode_control_frame(&bytes).unwrap(), frame);
}

#[test]
fn stats_report_with_wrong_length_is_refused() {
    let mut bytes = vec![4u8];
    bytes.extend_from_slice(&[0; 23]);
    assert!(decode_control_frame(&bytes).is_none());
}

#[test]
fn invalid_utf8_in_string_frames_is_refused() {
    assert!(decode_control_frame(&[1, 0xFF, 0xFE]).is_none());
    assert!(decode_control_frame(&[3, 0xC0, 0x00]).is_none());
}

#[test]
fn unknown_tag_and_empty_body_are_refused() {
    assert!(decode_control_frame(&[9, 1, 2]).is_none());
    assert!(decode_control_frame(&[]).is_none());
}

#[test]
fn control_messages_are_length_prefixed() {
    let framed = frame_control_message(&[7, 8, 9]).unwrap();
    assert_eq!(framed, vec![0, 0, 0, 3, 7, 8, 9]);
}

#[test]
fn oversized_control_message_is_refused_not_truncated() {
    let body = vec![0u8; MAX_FRAME_SIZE + 1];
    assert_eq!(frame_control_message(&body), Err(NetworkError::FrameTooLarge));
}

#[test]
fn length_header_reads_back_and_enforces_the_ceiling() {
    assert_eq!(read_control_length(0, 0, 1, 0), Ok(256));
    assert_eq!(read_control_length(0xFF, 0, 0, 0), Err(NetworkError::FrameTooLarge));
}
