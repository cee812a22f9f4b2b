use playsync::stream_buffer::StreamBuffer;

#[test]
fn stream_buffer_test_new() {
    let initial = [1, 2, 3, 4, 5];
    let buffer = StreamBuffer::new(&initial);

    assert_eq!(buffer.length(), 5);
    assert_eq!(buffer.position(), 0);
}

#[test]
fn stream_buffer_test_with_capacity() {
    let buffer = StreamBuffer::with_capacity(10);

    assert_eq!(buffer.length(), 10);
    assert_eq!(buffer.position(), 0);
    assert_eq!(buffer.get_buffer().len(), 10);
}

#[test]
fn test_read_write_byte() {
    let mut buffer = StreamBuffer::with_capacity(5);

    buffer.write_byte(42);
    buffer.write_byte(43);
    buffer.reset_position();

    assert_eq!(buffer.read_byte(), 42);
    assert_eq!(buffer.read_byte(), 43);
}

#[test]
fn test_try_read_write_byte() {
    let mut buffer = StreamBuffer::with_capacity(2);

    buffer.write_byte(42);
    buffer.write_byte(43);
    buffer.reset_position();

    assert_eq!(buffer.try_read_byte(), Some(42));
    assert_eq!(buffer.try_read_byte(), Some(43));
    assert_eq!(buffer.try_read_byte(), None);
}

#[test]
fn test_read_write_multiple() {
    let mut buffer = StreamBuffer::with_capacity(5);
    let data = [1, 2, 3, 4, 5];

    buffer.write(&data);
    buffer.reset_position();

    let read_data = buffer.read(5);
    assert_eq!(read_data, data);
}

#[test]
fn test_auto_resize() {
    let mut buffer = StreamBuffer::with_capacity(2);

    let data = [1, 2, 3, 4, 5];
    buffer.write(&data);

    assert!(buffer.get_buffer().len() >= 5);
    assert_eq!(buffer.length(), 5);

    buffer.reset_position();
    let read_data = buffer.read(5);
    assert_eq!(read_data, data);
}

#[test]
fn test_position_and_remaining() {
    let mut buffer = StreamBuffer::new(&[1, 2, 3, 4, 5]);

    assert_eq!(buffer.position(), 0);
    assert_eq!(buffer.remaining(), 5);

    buffer.read_byte();
    buffer.read_byte();

    assert_eq!(buffer.position(), 2);
    assert_eq!(buffer.remaining(), 3);
}

#[test]
fn test_seek_then_overwrite() {
    let mut buffer = StreamBuffer::new(&[9, 9, 9]);
    buffer.seek(1);
    buffer.write_byte(5);
    buffer.reset_position();
    assert_eq!(buffer.read(3), vec![9, 5, 9]);
}
