use playsync::errors::DecodeError;
use playsync::parameter_dictionary::{ParameterDictionary, Value};
use playsync::protocol_v18::{
    decode_zigzag32, deserialize_operation_response, encode_zigzag32, read,
    read_compressed_int32, read_compressed_uint32, read_int16, read_parameter_dictionary,
    write_compressed_int, write_compressed_uint32, write_parameter_table, write_ushort,
};
use playsync::stream_buffer::StreamBuffer;

#[test]
fn test_read_string() {
    let mut buffer = StreamBuffer::with_capacity(20);

    // Type tag for a text value.
    buffer.write_byte(7);

    // Varint length.
    buffer.write_byte(5);

    buffer.write_byte(b'h');
    buffer.write_byte(b'e');
    buffer.write_byte(b'l');
    buffer.write_byte(b'l');
    buffer.write_byte(b'o');

    buffer.reset_position();

    // The caller has already consumed the type byte.
    buffer.read_byte();

    match read(&mut buffer, 7) {
        Ok(Value::String(s)) => assert_eq!(s, "hello"),
        _ => panic!("Expected String value"),
    }
}

#[test]
fn test_deserialize_operation_response_with_debug_message() {
    let mut buffer = StreamBuffer::with_capacity(50);

    // Operation code.
    buffer.write_byte(1);

    // Return code.
    buffer.write_byte(0);
    buffer.write_byte(0);

    // Debug message type: text.
    buffer.write_byte(7);

    // Debug message varint length.
    buffer.write_byte(5);

    buffer.write_byte(b'h');
    buffer.write_byte(b'e');
    buffer.write_byte(b'l');
    buffer.write_byte(b'l');
    buffer.write_byte(b'o');

    // Empty parameter table.
    buffer.write_byte(0);

    buffer.reset_position();

    let response = deserialize_operation_response(&mut buffer).unwrap();

    assert_eq!(response.operation_code, 1);
    assert_eq!(response.return_code, 0);
    assert_eq!(response.debug_message, Some("hello".to_string()));
    assert_eq!(response.payload.count(), 0);
}

#[test]
fn test_deserialize_operation_response_without_debug_message() {
    let mut buffer = StreamBuffer::with_capacity(50);

    // Operation code.
    buffer.write_byte(1);

    // Return code.
    buffer.write_byte(0);
    buffer.write_byte(0);

    // Debug message type: absent value.
    buffer.write_byte(42);

    // Empty parameter table.
    buffer.write_byte(0);

    buffer.reset_position();

    let response = deserialize_operation_response(&mut buffer).unwrap();

    assert_eq!(response.operation_code, 1);
    assert_eq!(response.return_code, 0);
    assert_eq!(response.debug_message, None);
    assert_eq!(response.payload.count(), 0);
}

#[test]
fn test_write_ushort() {
    let mut buffer = StreamBuffer::with_capacity(2);
    write_ushort(&mut buffer, 0x1234);

    buffer.reset_position();
    assert_eq!(buffer.read_byte(), 0x34);
    assert_eq!(buffer.read_byte(), 0x12);
}

#[test]
fn test_read_int16() {
    let mut buffer = StreamBuffer::with_capacity(2);

    buffer.write_byte(0x34);
    buffer.write_byte(0x12);

    buffer.reset_position();

    let value = read_int16(&mut buffer).unwrap();

    assert_eq!(value, 0x1234);
}

#[test]
fn test_encode_zigzag32() {
    assert_eq!(encode_zigzag32(0), 0);
    assert_eq!(encode_zigzag32(1), 2);
    assert_eq!(encode_zigzag32(2), 4);

    assert_eq!(encode_zigzag32(-1), 1);
    assert_eq!(encode_zigzag32(-2), 3);

    assert_eq!(encode_zigzag32(0x3FFFFFFF), 0x7FFFFFFE);
    assert_eq!(encode_zigzag32(-0x40000000), 0x7FFFFFFF);
}

#[test]
fn test_decode_zigzag32() {
    assert_eq!(decode_zigzag32(0), 0);
    assert_eq!(decode_zigzag32(2), 1);
    assert_eq!(decode_zigzag32(4), 2);

    assert_eq!(decode_zigzag32(1), -1);
    assert_eq!(decode_zigzag32(3), -2);

    assert_eq!(decode_zigzag32(0x7FFFFFFE), 0x3FFFFFFF);
    assert_eq!(decode_zigzag32(0x7FFFFFFF), -0x40000000);

    let original = 12345;
    let encoded = encode_zigzag32(original);
    let decoded = decode_zigzag32(encoded);
    assert_eq!(decoded, original);

    let original = -12345;
    let encoded = encode_zigzag32(original);
    let decoded = decode_zigzag32(encoded);
    assert_eq!(decoded, original);
}

#[test]
fn test_write_compressed_uint32() {
    let mut buffer = vec![0u8; 5];
    let bytes_written = write_compressed_uint32(&mut buffer, 1);
    assert_eq!(bytes_written, 1);
    assert_eq!(buffer[0], 1);

    let mut buffer = vec![0u8; 5];
    let bytes_written = write_compressed_uint32(&mut buffer, 128);
    assert_eq!(bytes_written, 2);
    assert_eq!(buffer[0], 128 | 0);
    assert_eq!(buffer[1], 1);

    let mut buffer = vec![0u8; 5];
    let bytes_written = write_compressed_uint32(&mut buffer, 0x4000);
    assert_eq!(bytes_written, 3);
    assert_eq!(buffer[0], 128 | 0);
    assert_eq!(buffer[1], 128 | 0);
    assert_eq!(buffer[2], 1);
}

#[test]
fn test_read_compressed_uint32() {
    let mut buffer = StreamBuffer::with_capacity(5);
    buffer.write_byte(1);
    buffer.reset_position();
    assert_eq!(read_compressed_uint32(&mut buffer).unwrap(), 1);

    let mut buffer = StreamBuffer::with_capacity(5);
    buffer.write_byte(128 | 0);
    buffer.write_byte(1);
    buffer.reset_position();
    assert_eq!(read_compressed_uint32(&mut buffer).unwrap(), 128);

    let mut buffer = StreamBuffer::with_capacity(5);
    buffer.write_byte(128 | 0);
    buffer.write_byte(128 | 0);
    buffer.write_byte(1);
    buffer.reset_position();
    assert_eq!(read_compressed_uint32(&mut buffer).unwrap(), 0x4000);
}

#[test]
fn test_read_compressed_int32() {
    let mut buffer = StreamBuffer::with_capacity(5);
    buffer.write_byte(0);
    buffer.reset_position();
    assert_eq!(read_compressed_int32(&mut buffer).unwrap(), 0);

    let mut buffer = StreamBuffer::with_capacity(5);
    buffer.write_byte(2);
    buffer.reset_position();
    assert_eq!(read_compressed_int32(&mut buffer).unwrap(), 1);

    let mut buffer = StreamBuffer::with_capacity(5);
    buffer.write_byte(1);
    buffer.reset_position();
    assert_eq!(read_compressed_int32(&mut buffer).unwrap(), -1);

    let original = 12345;
    let mut buffer = StreamBuffer::with_capacity(10);
    write_compressed_int(&mut buffer, original, false);
    buffer.reset_position();
    assert_eq!(read_compressed_int32(&mut buffer).unwrap(), original);

    let original = -12345;
    let mut buffer = StreamBuffer::with_capacity(10);
    write_compressed_int(&mut buffer, original, false);
    buffer.reset_position();
    assert_eq!(read_compressed_int32(&mut buffer).unwrap(), original);
}

#[test]
fn test_write_compressed_int() {
    let mut buffer = StreamBuffer::with_capacity(10);
    write_compressed_int(&mut buffer, 0, true);
    buffer.reset_position();
    assert_eq!(buffer.read_byte(), 30);

    let mut buffer = StreamBuffer::with_capacity(10);
    write_compressed_int(&mut buffer, 42, true);
    buffer.reset_position();
    assert_eq!(buffer.read_byte(), 11);
    assert_eq!(buffer.read_byte(), 42);

    let mut buffer = StreamBuffer::with_capacity(10);
    write_compressed_int(&mut buffer, -42, true);
    buffer.reset_position();
    assert_eq!(buffer.read_byte(), 12);
    assert_eq!(buffer.read_byte(), 42);

    let mut buffer = StreamBuffer::with_capacity(10);
    let test_value = 1000u16;
    write_compressed_int(&mut buffer, test_value as i32, true);
    buffer.reset_position();
    assert_eq!(buffer.read_byte(), 13);
    assert_eq!(buffer.read_byte(), (test_value & 0xFF) as u8);
    assert_eq!(buffer.read_byte(), ((test_value >> 8) & 0xFF) as u8);

    let mut buffer = StreamBuffer::with_capacity(10);
    let test_value = 1000u16;
    write_compressed_int(&mut buffer, -(test_value as i32), true);
    buffer.reset_position();
    assert_eq!(buffer.read_byte(), 14);
    assert_eq!(buffer.read_byte(), (test_value & 0xFF) as u8);
    assert_eq!(buffer.read_byte(), ((test_value >> 8) & 0xFF) as u8);

    let mut buffer = StreamBuffer::with_capacity(10);
    write_compressed_int(&mut buffer, 1000000, true);
    buffer.reset_position();
    assert_eq!(buffer.read_byte(), 9);
}

#[test]
fn test_reserved_type_byte_is_unsupported() {
    for tag in [128u8, 180, 228] {
        let mut buffer = StreamBuffer::new(&[0, 0, 0]);
        assert_eq!(read(&mut buffer, tag), Err(DecodeError::UnsupportedType));
    }
}

#[test]
fn test_read_short_buffer() {
    let mut buffer = StreamBuffer::new(&[]);
    assert_eq!(read(&mut buffer, 11), Err(DecodeError::ShortBuffer));

    let mut buffer = StreamBuffer::new(&[7, 5, b'h']);
    buffer.read_byte();
    assert_eq!(read(&mut buffer, 7), Err(DecodeError::ShortBuffer));
}

#[test]
fn test_read_malformed_text() {
    let mut buffer = StreamBuffer::new(&[2, 0xFF, 0xFE]);
    assert_eq!(read(&mut buffer, 7), Err(DecodeError::MalformedText));
}

#[test]
fn test_parameter_table_round_trip() {
    let mut parameters = ParameterDictionary::new();
    parameters.set(1, Value::Int(0));
    parameters.set(2, Value::Int(200));
    parameters.set(3, Value::Int(70000));
    parameters.set(4, Value::Int(-200));
    parameters.set(5, Value::Int(-70000));
    parameters.set(6, Value::String("hello".to_string()));

    let mut buffer = StreamBuffer::with_capacity(0);
    write_parameter_table(&mut buffer, parameters);
    buffer.reset_position();

    let decoded = read_parameter_dictionary(&mut buffer).unwrap();
    assert_eq!(decoded.count(), 6);
    assert_eq!(decoded.get(1), Some(&Value::Int(0)));
    assert_eq!(decoded.get(2), Some(&Value::Int(200)));
    assert_eq!(decoded.get(3), Some(&Value::Int(70000)));
    assert_eq!(decoded.get(4), Some(&Value::Int(-200)));
    assert_eq!(decoded.get(5), Some(&Value::Int(-70000)));
    assert_eq!(decoded.get(6), Some(&Value::String("hello".to_string())));
}

#[test]
fn test_varint_round_trip_values() {
    for v in [0u32, 1, 127, 128, 300, 16383, 16384, 0xFFFF_FFFF] {
        let mut scratch = vec![0u8; 5];
        let n = write_compressed_uint32(&mut scratch, v);
        let mut buffer = StreamBuffer::new(&scratch[0..n]);
        assert_eq!(read_compressed_uint32(&mut buffer).unwrap(), v);
    }
}
