use may_minihttp::body::body_writer::{BodyWriter, MAX_DROP_PADDING};
use may_minihttp::body::BodyReader;
use may_minihttp::buffer::BufferIo;
use may_minihttp::shared::SharedStream;

#[test]
fn test_sized_writer_exact_bytes() {
    let mut cw: Vec<u8> = Vec::new();
    let mut bw = BodyWriter::SizedWriter(7);
    assert_eq!(bw.write(&mut cw, b"hello\n!"), 7);
    assert_eq!(cw.as_slice(), b"hello\n!");
}

#[test]
fn test_sized_writer_over_limit() {
    let mut cw: Vec<u8> = Vec::new();
    let mut bw = BodyWriter::SizedWriter(5);
    assert_eq!(bw.write(&mut cw, b"hello world"), 5);
    assert_eq!(cw.as_slice(), b"hello");
}

#[test]
fn test_sized_writer_drop_fills_padding() {
    let mut captured: Vec<u8> = Vec::new();
    let mut bw = BodyWriter::SizedWriter(10);
    bw.write(&mut captured, b"hi");
    bw.finish(&mut captured);
    assert_eq!(captured.len(), 10);
    assert_eq!(&captured[..2], b"hi");
    assert_eq!(&captured[2..], &[0u8; 8]);
}

#[test]
fn test_sized_writer_drop_does_not_pad_unbounded_length() {
    let mut cw: Vec<u8> = Vec::new();
    let bw = BodyWriter::SizedWriter(MAX_DROP_PADDING + 1);
    bw.finish(&mut cw);
    assert!(cw.is_empty());
}

#[test]
fn test_chunk_writer_format() {
    let mut cw: Vec<u8> = Vec::new();
    let mut bw = BodyWriter::ChunkWriter;
    bw.write(&mut cw, b"hello");
    assert_eq!(cw.as_slice(), b"5\r\nhello\r\n");
}

#[test]
fn test_chunk_writer_multiple_writes() {
    let mut cw: Vec<u8> = Vec::new();
    let mut bw = BodyWriter::ChunkWriter;
    bw.write(&mut cw, b"hello");
    bw.write(&mut cw, b"world");
    assert_eq!(cw.as_slice(), b"5\r\nhello\r\n5\r\nworld\r\n");
}

#[test]
fn test_chunk_writer_drop_terminator() {
    let mut captured: Vec<u8> = Vec::new();
    let mut bw = BodyWriter::ChunkWriter;
    bw.write(&mut captured, b"test");
    bw.finish(&mut captured);
    assert!(
        captured.ends_with(b"0\r\n\r\n"),
        "expected chunk terminator in {captured:?}"
    );
}

#[test]
fn test_empty_writer_accepts_no_data() {
    let mut cw: Vec<u8> = Vec::new();
    let mut bw = BodyWriter::EmptyWriter;
    assert_eq!(bw.write(&mut cw, b"anything"), 0);
    assert!(cw.is_empty());
}

#[test]
fn chunk_sizes_are_upper_case_hexadecimal() {
    let mut cw: Vec<u8> = Vec::new();
    let mut bw = BodyWriter::ChunkWriter;
    bw.write(&mut cw, &[7u8; 0x1ab]);
    assert!(cw.starts_with(b"1AB\r\n"));
    assert_eq!(cw.len(), 5 + 0x1ab + 2);
}

#[test]
fn padding_is_written_up_to_its_limit() {
    let mut cw: Vec<u8> = Vec::new();
    BodyWriter::SizedWriter(MAX_DROP_PADDING).finish(&mut cw);
    assert_eq!(cw, vec![0u8; MAX_DROP_PADDING]);
}

#[test]
fn reading_gives_back_what_was_written_in_chunks() {
    let pieces: [&[u8]; 3] = [b"first", b"second piece", b"3"];
    let mut wire: Vec<u8> = Vec::new();
    let mut bw = BodyWriter::ChunkWriter;
    for piece in pieces {
        bw.write(&mut wire, piece);
    }
    bw.finish(&mut wire);
    for max in [1usize, 4, 100] {
        let mut stream = SharedStream::test(&wire);
        let mut reader = BodyReader::ChunkReader(None);
        let mut all = Vec::new();
        loop {
            let piece = reader.read(&mut stream, max).unwrap();
            if piece.is_empty() {
                break;
            }
            all.extend_from_slice(&piece);
        }
        assert_eq!(all, b"firstsecond piece3");
    }
}

#[test]
fn a_sized_writer_follows_what_its_sink_accepts() {
    let mut sink = BufferIo::with_capacity(4);
    let mut bw = BodyWriter::SizedWriter(8);
    assert_eq!(bw.write(&mut sink, b"abc"), 3);
    assert_eq!(bw.write(&mut sink, b"def"), 1);
    assert_eq!(bw, BodyWriter::SizedWriter(4));
    bw.flush(&mut sink);
    assert_eq!(sink.take_writes(), vec![b"abcd".to_vec()]);
}
