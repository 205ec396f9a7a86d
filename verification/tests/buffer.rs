use may_minihttp::buffer::{room_in, BufferIo};
use may_minihttp::ErrorKind;

#[test]
fn test_consume_and_get_buf() {
    let mut rdr = BufferIo::new();
    rdr.bump_read(b"foo");
    rdr.consume(1);
    assert_eq!(rdr.get_reader_buf(), b"oo");
    rdr.bump_read(b"bar");
    rdr.bump_read(b"baz");
    assert_eq!(rdr.get_reader_buf(), b"oobarbaz");
    rdr.consume(5);
    assert_eq!(rdr.get_reader_buf(), b"baz");
    rdr.consume(3);
    assert_eq!(rdr.get_reader_buf(), b"");
}

#[test]
fn test_resize() {
    let raw = vec![1u8; 100];
    let mut rdr = BufferIo::with_capacity(65);
    let room = rdr.read_room().min(raw.len());
    rdr.bump_read(&raw[..room]);
    assert_eq!(rdr.get_reader_buf().len(), 65);
    let more = rdr.read_room().min(raw.len() - room);
    rdr.bump_read(&raw[room..room + more]);
    assert_eq!(rdr.get_reader_buf().len(), 100);
}

#[test]
fn test_write() {
    let data = vec![0u8; 100];
    let mut wrt = BufferIo::with_capacity(40);
    assert_eq!(wrt.write(&data), 100);
    assert_eq!(wrt.write(&[0u8; 6]), 6);
    assert_eq!(wrt.write(&data), 100);
    assert_eq!(wrt.write(&data), 100);
}

#[test]
fn large_write_flushes_buffer_then_bypasses_it() {
    let mut writer = BufferIo::with_capacity(4);
    writer.write_all(b"ab");
    writer.write_all(b"01234567");
    assert_eq!(
        writer.take_writes(),
        vec![b"ab".to_vec(), b"01234567".to_vec()]
    );
    assert_eq!(writer.buffered_len(), 0);
}

#[test]
fn a_full_buffer_is_flushed_before_the_next_write() {
    let mut writer = BufferIo::with_capacity(4);
    writer.write_all(b"abc");
    assert_eq!(writer.write(b"def"), 1);
    assert_eq!(writer.buffered_len(), 4);
    assert_eq!(writer.write(b"ef"), 2);
    assert_eq!(writer.take_writes(), vec![b"abcd".to_vec()]);
    writer.flush();
    assert_eq!(writer.take_writes(), vec![b"ef".to_vec()]);
    writer.flush();
    assert!(writer.take_writes().is_empty());
}

#[test]
fn reading_takes_what_was_received() {
    let mut rdr = BufferIo::new();
    assert_eq!(rdr.read(4).unwrap_err().kind(), ErrorKind::WouldBlock);
    rdr.bump_read(b"hello");
    assert_eq!(rdr.read(4).unwrap(), b"hell");
    assert_eq!(rdr.read(4).unwrap(), b"o");
    assert!(!rdr.is_closed());
    rdr.bump_read(b"");
    assert!(rdr.is_closed());
    assert!(rdr.read(4).unwrap().is_empty());
}

#[test]
fn a_read_is_offered_all_the_room_there_is() {
    assert_eq!(room_in(100, 60), Some(40));
    assert_eq!(room_in(100, 68), Some(32));
    assert_eq!(room_in(100, 69), None);
    assert_eq!(room_in(0, 0), None);
    for cap in [0, 31, 65, 4096, 10_000] {
        let mut buffer = BufferIo::with_capacity(cap);
        let room = buffer.read_room();
        assert!(room >= cap && room >= 32);
    }
    let mut buffer = BufferIo::with_capacity(64);
    buffer.bump_read(&[0; 40]);
    assert!(buffer.read_room() >= 32);
    assert_eq!(buffer.get_reader_buf(), [0; 40]);
}
