use playsync::errors::DecodeError;
use playsync::photon_region::PhotonRegion;
use playsync::relay::{
    deserialize_message_and_callback, extract_regions, get_regions, init_callback,
    read_ping_result, FrameAction,
};
use playsync::stream_buffer::StreamBuffer;

fn write_text(buffer: &mut StreamBuffer, s: &str) {
    let mut len = vec![0u8; 5];
    let n = playsync::protocol_v18::write_compressed_uint32(&mut len, s.len() as u32);
    buffer.write(&len[0..n]);
    buffer.write(s.as_bytes());
}

/// A discovery response frame as the relay would send it: kind 3, opcode
/// 220, region names at key 210 and addresses at key 230.
fn discovery_frame() -> StreamBuffer {
    let mut buffer = StreamBuffer::with_capacity(0);
    buffer.write_byte(243);
    buffer.write_byte(3);
    // Operation response: opcode 220, return code 0, no debug text.
    buffer.write_byte(220);
    buffer.write_byte(0);
    buffer.write_byte(0);
    buffer.write_byte(42);
    // Two parameters.
    buffer.write_byte(2);
    buffer.write_byte(210);
    buffer.write_byte(71);
    buffer.write_byte(2);
    write_text(&mut buffer, "us");
    write_text(&mut buffer, "eu");
    buffer.write_byte(230);
    buffer.write_byte(71);
    buffer.write_byte(2);
    write_text(&mut buffer, "wss://a");
    write_text(&mut buffer, "wss://b");
    buffer.reset_position();
    buffer
}

#[test]
fn test_region_discovery() {
    let mut buffer = discovery_frame();
    let action = deserialize_message_and_callback(&mut buffer).unwrap();
    let response = match action {
        FrameAction::Response(response) => response,
        other => panic!("expected an operation response, got {:?}", other),
    };
    assert_eq!(response.operation_code, 220);
    assert_eq!(response.return_code, 0);

    let regions = extract_regions(&response).unwrap();
    assert_eq!(
        regions,
        vec![
            PhotonRegion { short_name: "us".to_string(), address: "wss://a".to_string() },
            PhotonRegion { short_name: "eu".to_string(), address: "wss://b".to_string() },
        ]
    );
}

#[test]
fn test_discovery_length_mismatch() {
    let mut buffer = StreamBuffer::with_capacity(0);
    buffer.write_byte(243);
    buffer.write_byte(3);
    buffer.write_byte(220);
    buffer.write_byte(0);
    buffer.write_byte(0);
    buffer.write_byte(42);
    buffer.write_byte(2);
    buffer.write_byte(210);
    buffer.write_byte(71);
    buffer.write_byte(2);
    write_text(&mut buffer, "us");
    write_text(&mut buffer, "eu");
    buffer.write_byte(230);
    buffer.write_byte(71);
    buffer.write_byte(1);
    write_text(&mut buffer, "wss://a");
    buffer.reset_position();

    let action = deserialize_message_and_callback(&mut buffer).unwrap();
    let response = match action {
        FrameAction::Response(response) => response,
        other => panic!("expected an operation response, got {:?}", other),
    };
    assert_eq!(extract_regions(&response), Err(DecodeError::MalformedDiscovery));
}

#[test]
fn test_dispatch_not_operation() {
    let mut buffer = StreamBuffer::new(&[42, 1, 2, 3]);
    match deserialize_message_and_callback(&mut buffer).unwrap() {
        FrameAction::NotOperation => {},
        other => panic!("expected a discarded frame, got {:?}", other),
    }
}

#[test]
fn test_dispatch_init_response() {
    let mut buffer = StreamBuffer::new(&[243, 1]);
    match deserialize_message_and_callback(&mut buffer).unwrap() {
        FrameAction::InitResponse => {},
        other => panic!("expected the init response, got {:?}", other),
    }
}

#[test]
fn test_dispatch_disconnect() {
    let mut buffer = StreamBuffer::new(&[253, 5]);
    match deserialize_message_and_callback(&mut buffer).unwrap() {
        FrameAction::Disconnect => {},
        other => panic!("expected a disconnect, got {:?}", other),
    }
}

#[test]
fn test_dispatch_unknown_kind() {
    let mut buffer = StreamBuffer::new(&[243, 9, 0, 0]);
    assert_eq!(
        deserialize_message_and_callback(&mut buffer).unwrap_err(),
        DecodeError::UnknownKind
    );
}

#[test]
fn test_dispatch_encryption_unsupported() {
    let mut buffer = StreamBuffer::new(&[243, 0x83]);
    assert_eq!(
        deserialize_message_and_callback(&mut buffer).unwrap_err(),
        DecodeError::EncryptionUnsupported
    );
}

#[test]
fn test_dispatch_short_frame() {
    let mut buffer = StreamBuffer::new(&[]);
    assert_eq!(
        deserialize_message_and_callback(&mut buffer).unwrap_err(),
        DecodeError::ShortBuffer
    );
}

#[test]
fn test_init_callback_frame() {
    let frame = init_callback(1500);
    // Header with the internal-operation-request kind patched in, the ping
    // opcode, one parameter at key 1 holding Int1(1500 is > 255 so Int2).
    assert_eq!(frame[0], 243);
    assert_eq!(frame[1], 6);
    assert_eq!(frame[2], 1);
    assert_eq!(frame[3], 1);
    assert_eq!(frame[4], 1);
    assert_eq!(frame[5], 13);
    assert_eq!(frame[6], (1500 % 256) as u8);
    assert_eq!(frame[7], (1500 / 256) as u8);
}

#[test]
fn test_get_regions_frame() {
    let frame = get_regions();
    assert_eq!(frame[0], 243);
    // The operation kind's ordinal is already the header's second byte.
    assert_eq!(frame[1], 2);
    assert_eq!(frame[2], 220);
    assert_eq!(frame[3], 1);
    assert_eq!(frame[4], 224);
    assert_eq!(frame[5], 7);
    assert_eq!(frame[6], 36);
    assert_eq!(&frame[7..], "0d501af7-d643-47dd-811a-cfc25ef543be".as_bytes());
}

#[test]
fn test_read_ping_result() {
    let mut buffer = StreamBuffer::with_capacity(0);
    buffer.write_byte(1);
    buffer.write_byte(0);
    buffer.write_byte(0);
    buffer.write_byte(42);
    buffer.write_byte(2);
    buffer.write_byte(1);
    buffer.write_byte(13);
    buffer.write_byte((1200u16 % 256) as u8);
    buffer.write_byte((1200u16 / 256) as u8);
    buffer.write_byte(2);
    buffer.write_byte(11);
    buffer.write_byte(77);
    buffer.reset_position();

    let response = playsync::protocol_v18::deserialize_operation_response(&mut buffer).unwrap();
    assert_eq!(read_ping_result(&response, 1500), Some((300, 77)));
    assert_eq!(read_ping_result(&response, 1000), Some((0, 77)));
}
