use may_minihttp::body::body_reader::{
    consume_trailers, eat, read_chunk_size, BodyReader, MAX_CHUNK_LINE_BYTES, MAX_TRAILER_BYTES,
};
use may_minihttp::shared::SharedStream;
use may_minihttp::{Error, ErrorKind};

fn stream(data: &[u8]) -> SharedStream {
    SharedStream::test(data)
}

fn open_stream(data: &[u8]) -> SharedStream {
    let mut stream = SharedStream::new();
    stream.buffer.bump_read(data);
    stream
}

fn drain(reader: &mut BodyReader, stream: &mut SharedStream, max: usize) -> Result<Vec<u8>, Error> {
    let mut all = Vec::new();
    loop {
        let piece = reader.read(stream, max)?;
        if piece.is_empty() {
            return Ok(all);
        }
        all.extend_from_slice(&piece);
    }
}

// --- eat tests ---

#[test]
fn test_eat_valid() {
    let mut reader = stream(b"\r\nhello");
    eat(&mut reader, b"\r\n").unwrap();
    assert_eq!(reader.buffer.get_reader_buf(), b"hello");
}

#[test]
fn test_eat_invalid() {
    let mut reader = stream(b"XXhello");
    assert!(eat(&mut reader, b"\r\n").is_err());
}

// --- read_chunk_size tests ---

#[test]
fn test_read_chunk_size_basic() {
    let mut reader = stream(b"FF\r\n");
    assert_eq!(read_chunk_size(&mut reader).unwrap(), 255);
}

#[test]
fn test_read_chunk_size_small() {
    let mut reader = stream(b"5\r\n");
    assert_eq!(read_chunk_size(&mut reader).unwrap(), 5);
}

#[test]
fn test_read_chunk_size_with_extension() {
    let mut reader = stream(b"5;ext=val\r\n");
    assert_eq!(read_chunk_size(&mut reader).unwrap(), 5);
}

#[test]
fn test_read_chunk_size_zero() {
    let mut reader = stream(b"0\r\n\r\n");
    assert_eq!(read_chunk_size(&mut reader).unwrap(), 0);
}

#[test]
fn test_read_chunk_size_invalid() {
    let mut reader = stream(b"ZZ\r\n");
    assert!(read_chunk_size(&mut reader).is_err());
}

#[test]
fn test_read_chunk_size_overflow_is_rejected() {
    let line = format!("{}\r\n", "F".repeat(usize::BITS as usize / 4 + 1));
    let mut reader = stream(line.as_bytes());
    assert_eq!(
        read_chunk_size(&mut reader).unwrap_err().kind(),
        ErrorKind::InvalidData
    );
}

#[test]
fn chunk_size_line_failures_name_their_cause() {
    let cases: Vec<(Vec<u8>, ErrorKind, &str)> = vec![
        (
            b"".to_vec(),
            ErrorKind::InvalidInput,
            "Invalid chunk size line, read byte",
        ),
        (
            b"5".to_vec(),
            ErrorKind::InvalidInput,
            "Invalid chunk size line, read byte",
        ),
        (
            b"5\r".to_vec(),
            ErrorKind::InvalidInput,
            "Invalid chunk size line, read byte",
        ),
        (
            b"5\rx".to_vec(),
            ErrorKind::InvalidInput,
            "Invalid chunk size line, read new line",
        ),
        (
            b"\r\n".to_vec(),
            ErrorKind::InvalidInput,
            "Invalid chunk size line, unknown byte",
        ),
        (
            b"5 5\r\n".to_vec(),
            ErrorKind::InvalidInput,
            "Invalid chunk size line, unknown byte",
        ),
        (
            format!("5;{}", "x".repeat(MAX_CHUNK_LINE_BYTES)).into_bytes(),
            ErrorKind::InvalidData,
            "chunk-size line exceeds configured limit",
        ),
        (
            format!("{}\r\n", "F".repeat(usize::BITS as usize / 4 + 1)).into_bytes(),
            ErrorKind::InvalidData,
            "chunk size overflows usize",
        ),
    ];
    for (data, kind, message) in cases {
        let error = read_chunk_size(&mut stream(&data)).unwrap_err();
        assert_eq!(error.kind(), kind);
        assert_eq!(error.message(), message);
    }
}

#[test]
fn chunk_size_line_accepts_blanks_and_extensions() {
    for (line, size) in [
        (&b"1a \t;x;y\r\nrest"[..], 26),
        (&b"0010\r\nrest"[..], 16),
        (&b"aBc  \r\nrest"[..], 0xabc),
    ] {
        let mut reader = stream(line);
        assert_eq!(read_chunk_size(&mut reader).unwrap(), size);
        assert_eq!(reader.buffer.get_reader_buf(), b"rest");
    }
}

#[test]
fn an_incomplete_line_waits_for_more_input() {
    let mut reader = open_stream(b"1");
    let error = read_chunk_size(&mut reader).unwrap_err();
    assert_eq!(error.kind(), ErrorKind::WouldBlock);
    assert_eq!(reader.buffer.get_reader_buf(), b"1");
    reader.buffer.bump_read(b"0\r\nx");
    assert_eq!(read_chunk_size(&mut reader).unwrap(), 16);
    assert_eq!(reader.buffer.get_reader_buf(), b"x");
}

// --- trailer tests ---

#[test]
fn trailer_sections_end_at_the_empty_line() {
    let mut reader = stream(b"A: b\r\nC:\r\n\r\nnext");
    consume_trailers(&mut reader).unwrap();
    assert_eq!(reader.buffer.get_reader_buf(), b"next");
}

#[test]
fn trailer_failures_name_their_cause() {
    let error = consume_trailers(&mut stream(b"A: b\r\n")).unwrap_err();
    assert_eq!(error.kind(), ErrorKind::UnexpectedEof);
    let error = consume_trailers(&mut stream(b"no colon\r\n\r\n")).unwrap_err();
    assert_eq!(error.kind(), ErrorKind::InvalidData);
    assert_eq!(error.message(), "malformed chunk trailer field");
    let long = vec![b'a'; MAX_TRAILER_BYTES + 1];
    let error = consume_trailers(&mut stream(&long)).unwrap_err();
    assert_eq!(error.kind(), ErrorKind::InvalidData);
    assert_eq!(error.message(), "chunk trailers exceed configured limit");
}

// --- BodyReader tests ---

#[test]
fn test_sized_reader_exact_bytes() {
    let mut reader = stream(b"hello world!");
    let mut br = BodyReader::SizedReader(12);
    assert_eq!(br.read(&mut reader, 12).unwrap(), b"hello world!");
    assert_eq!(br.read(&mut reader, 4).unwrap().len(), 0);
}

#[test]
fn test_sized_reader_zero_remain() {
    let mut reader = stream(b"nope");
    let mut br = BodyReader::SizedReader(0);
    assert_eq!(br.read(&mut reader, 4).unwrap().len(), 0);
}

#[test]
fn test_chunk_reader_multiple_chunks() {
    let mut reader = stream(b"5\r\nhello\r\n5\r\nworld\r\n0\r\n\r\n");
    let mut br = BodyReader::ChunkReader(None);
    assert_eq!(br.read(&mut reader, 10).unwrap(), b"hello");
    assert_eq!(br.read(&mut reader, 10).unwrap(), b"world");
    assert_eq!(br.read(&mut reader, 10).unwrap().len(), 0);
}

#[test]
fn test_chunk_reader_chunk_extensions() {
    let mut reader = stream(b"5;ext=val\r\nhello\r\n0\r\n\r\n");
    let mut br = BodyReader::ChunkReader(None);
    assert_eq!(br.read(&mut reader, 5).unwrap(), b"hello");
    assert_eq!(br.read(&mut reader, 5).unwrap().len(), 0);
}

#[test]
fn test_chunk_reader_consumes_trailers() {
    let mut reader = stream(b"5\r\nhello\r\n0\r\nX-Checksum: yes\r\nX-Other: ok\r\n\r\n");
    let mut br = BodyReader::ChunkReader(None);
    assert_eq!(br.read(&mut reader, 5).unwrap(), b"hello");
    assert_eq!(br.read(&mut reader, 5).unwrap().len(), 0);
}

#[test]
fn test_chunk_reader_early_eof() {
    let mut reader = stream(b"10\r\nhel");
    let mut br = BodyReader::ChunkReader(None);
    assert_eq!(br.read(&mut reader, 10).unwrap().len(), 3);
    assert!(br.read(&mut reader, 10).is_err());
}

#[test]
fn test_empty_reader_always_zero() {
    let mut reader = stream(b"anything");
    let mut br = BodyReader::EmptyReader;
    assert_eq!(br.read(&mut reader, 4).unwrap().len(), 0);
}

#[test]
fn dropping_partial_body_does_not_drain_or_release_connection() {
    let mut reader = stream(b"5\r\nhello\r\n0\r\n\r\n");
    reader.mark_response_pending();
    let mut br = BodyReader::ChunkReader(None);
    assert_eq!(br.read(&mut reader, 10).unwrap(), b"hello");
    br.abandon();
    assert_eq!(
        reader.ensure_request_ready().unwrap_err().kind(),
        ErrorKind::ConnectionAborted
    );
    assert_eq!(reader.buffer.get_reader_buf(), b"0\r\n\r\n");
}

#[test]
fn a_complete_body_releases_the_connection() {
    let mut reader = stream(b"5\r\nhello\r\n0\r\n\r\nnext");
    reader.mark_response_pending();
    let mut br = BodyReader::ChunkReader(None);
    assert_eq!(drain(&mut br, &mut reader, 2).unwrap(), b"hello");
    assert!(br.is_complete());
    reader.ensure_request_ready().unwrap();
    assert_eq!(reader.buffer.get_reader_buf(), b"next");
}

#[test]
fn sized_body_failures_and_boundaries() {
    let mut reader = stream(b"abcdef");
    let mut br = BodyReader::SizedReader(4);
    assert_eq!(drain(&mut br, &mut reader, 3).unwrap(), b"abcd");
    assert_eq!(reader.buffer.get_reader_buf(), b"ef");
    let mut br = BodyReader::SizedReader(9);
    assert_eq!(br.read(&mut reader, 9).unwrap(), b"ef");
    assert!(!br.is_complete());
    let error = br.read(&mut reader, 9).unwrap_err();
    assert_eq!(error.kind(), ErrorKind::UnexpectedEof);
}

#[test]
fn a_body_without_length_ends_with_the_connection() {
    let mut reader = open_stream(b"abc");
    reader.mark_response_pending();
    let mut br = BodyReader::EofReader(true);
    assert_eq!(br.read(&mut reader, 2).unwrap(), b"ab");
    assert_eq!(br.read(&mut reader, 2).unwrap(), b"c");
    assert_eq!(
        br.read(&mut reader, 2).unwrap_err().kind(),
        ErrorKind::WouldBlock
    );
    reader.buffer.bump_read(b"");
    assert_eq!(br.read(&mut reader, 2).unwrap().len(), 0);
    reader.ensure_request_ready().unwrap();
}

#[test]
fn a_chunk_without_its_line_end_is_rejected() {
    let mut reader = stream(b"5\r\nhelloXX");
    let mut br = BodyReader::ChunkReader(None);
    let error = br.read(&mut reader, 10).unwrap_err();
    assert_eq!(error.kind(), ErrorKind::InvalidInput);
    assert_eq!(error.message(), "Invalid characters found");
}

#[test]
fn a_starved_chunk_read_changes_nothing() {
    let mut reader = open_stream(b"5\r\nhello\r");
    let mut br = BodyReader::ChunkReader(None);
    assert_eq!(
        br.read(&mut reader, 10).unwrap_err().kind(),
        ErrorKind::WouldBlock
    );
    assert_eq!(br, BodyReader::ChunkReader(None));
    assert_eq!(reader.buffer.get_reader_buf(), b"5\r\nhello\r");
    reader.buffer.bump_read(b"\n");
    assert_eq!(br.read(&mut reader, 10).unwrap(), b"hello");
}

#[test]
fn reads_that_consume_nothing_free_nothing() {
    let mut reader = stream(b"hello");
    reader.mark_response_pending();
    let mut sized = BodyReader::SizedReader(5);
    assert!(sized.read(&mut reader, 0).unwrap().is_empty());
    assert!(reader.ensure_request_ready().is_err());
    sized.abandon();
    assert!(sized.read(&mut reader, 9).unwrap().is_empty());
    assert!(reader.ensure_request_ready().is_err());
    let mut to_end = BodyReader::EofReader(true);
    assert!(to_end.read(&mut reader, 0).unwrap().is_empty());
    assert!(reader.ensure_request_ready().is_err());
    assert_eq!(drain(&mut to_end, &mut reader, 3).unwrap(), b"hello");
    assert!(reader.ensure_request_ready().is_ok());
}

#[test]
fn reads_of_mixed_sizes_give_a_chunked_body_back_and_leave_the_rest() {
    let mut stream = open_stream(b"3\r\nabc\r\nA\r\n0123456789\r\n1\r\nz\r\n0\r\n\r\nHTTP/1.1");
    let mut reader = BodyReader::ChunkReader(None);
    let mut all = Vec::new();
    for size in [1, 5, 2, 100, 7, 3, 1].iter().cycle() {
        let piece = reader.read(&mut stream, *size).unwrap();
        if piece.is_empty() {
            break;
        }
        all.extend_from_slice(&piece);
    }
    assert_eq!(all, b"abc0123456789z");
    assert_eq!(stream.buffer.get_reader_buf(), b"HTTP/1.1");
    assert!(reader.read(&mut stream, 9).unwrap().is_empty());
    assert_eq!(stream.buffer.get_reader_buf(), b"HTTP/1.1");
}

#[test]
fn the_end_of_the_input_completes_a_body_that_ends_with_it() {
    let mut stream = stream(b"ab");
    stream.mark_response_pending();
    let mut reader = BodyReader::EofReader(true);
    assert_eq!(reader.read(&mut stream, 9).unwrap(), b"ab");
    assert!(reader.read(&mut stream, 0).unwrap().is_empty());
    assert!(!reader.is_complete() && stream.response_pending);
    assert!(reader.read(&mut stream, 9).unwrap().is_empty());
    assert!(reader.is_complete() && !stream.response_pending);
}
