//! The chunked coding and the stream that it is read from.

use dlnaproxy::chunked::{
    parse_chunk_size, pass_through_chunked, read_chunked_body, relay_chunk, relay_wants,
    write_chunked_body, ChunkPhase, ChunkedBody, ChunkedProgress, ProxyError, RelayStep,
};
use dlnaproxy::stream::{left_of, push_bytes, relay_limit, ByteReader, Wanted, RELAY_BUFFER_SIZE};

#[test]
fn test_parse_chunk_size_takes_the_field_before_the_first_end() {
    assert_eq!(parse_chunk_size(b"1f"), Ok(31));
    assert_eq!(parse_chunk_size(b"1f;a=b;c"), Ok(31));
    assert_eq!(parse_chunk_size(b"1f\rjunk"), Ok(31));
    assert_eq!(parse_chunk_size(b"0001f \r\n"), Ok(31));
}

#[test]
fn test_parse_chunk_size_refuses_what_is_no_hex_number() {
    for line in [&b""[..], b"\r\n", b" 10\r\n", b";10\r\n", b"+10\r\n", b"-1\r\n", b"\t10\r\n",
        b"0x10\r\n", b"1g\r\n", b"1\t\r\n", b"\xff\r\n"]
    {
        assert_eq!(parse_chunk_size(line), Err(ProxyError::InvalidChunkSize));
    }
}

#[test]
fn test_parse_chunk_size_refuses_what_does_not_fit() {
    let most = format!("{:x}\r\n", usize::MAX);
    assert_eq!(parse_chunk_size(most.as_bytes()), Ok(usize::MAX));
    let over = format!("{:x}0\r\n", usize::MAX);
    assert_eq!(parse_chunk_size(over.as_bytes()), Err(ProxyError::InvalidChunkSize));
}

#[test]
fn test_error_kinds() {
    assert!(ProxyError::InvalidChunkSize.is_invalid_data());
    assert!(ProxyError::BodyTooLarge.is_invalid_data());
    assert!(!ProxyError::UnexpectedEof.is_invalid_data());
    assert_eq!(ProxyError::InvalidChunkSize.message(), "Invalid chunk size");
    assert_eq!(ProxyError::BodyTooLarge.message(), "Chunked body exceeds maximum size");
    assert_eq!(ProxyError::UnexpectedEof.message(), "Unexpected end of stream");
}

#[test]
fn test_write_chunked_body_appends() {
    let mut out = b"head".to_vec();
    write_chunked_body(&mut out, &[0u8; 26]);
    let mut expected = b"head1a\r\n".to_vec();
    expected.extend_from_slice(&[0u8; 26]);
    expected.extend_from_slice(b"\r\n0\r\n\r\n");
    assert_eq!(out, expected);
}

#[test]
fn test_round_trip_of_every_length_up_to_the_limit() {
    for len in [0usize, 1, 15, 16, 17, 255, 256, 4095, 4096, 70000] {
        let body: Vec<u8> = (0..len).map(|i| (i * 7 % 256) as u8).collect();
        let mut encoded = Vec::new();
        write_chunked_body(&mut encoded, &body);
        let mut reader = ByteReader::new(encoded);
        assert_eq!(read_chunked_body(&mut reader, len), Ok(body));
        assert_eq!(reader.remaining_len(), if len == 0 { 5 } else { 0 });
    }
}

#[test]
fn test_round_trip_fails_above_the_limit() {
    let mut encoded = Vec::new();
    write_chunked_body(&mut encoded, b"0123456789a");
    let mut reader = ByteReader::new(encoded);
    assert_eq!(read_chunked_body(&mut reader, 10), Err(ProxyError::BodyTooLarge));
}

#[test]
fn test_limit_counts_all_chunks() {
    let data = b"5\r\nHello\r\n6\r\n World\r\n0\r\n\r\n";
    let mut reader = ByteReader::new(data.to_vec());
    assert_eq!(read_chunked_body(&mut reader, 11), Ok(b"Hello World".to_vec()));
    let mut reader = ByteReader::new(data.to_vec());
    assert_eq!(read_chunked_body(&mut reader, 10), Err(ProxyError::BodyTooLarge));
    // the size line that went over the limit has been read, the chunk has not
    assert_eq!(reader.read_to_end(), b" World\r\n0\r\n\r\n");
}

#[test]
fn test_read_chunked_body_leaves_what_follows() {
    let mut reader = ByteReader::new(b"3\r\nabc\r\n0\r\n\r\nnext".to_vec());
    assert_eq!(read_chunked_body(&mut reader, 100), Ok(b"abc".to_vec()));
    assert_eq!(reader.read_to_end(), b"next");
}

#[test]
fn test_read_chunked_body_takes_any_two_bytes_after_a_chunk() {
    let mut reader = ByteReader::new(b"3\r\nabcXY0\r\n\r\n".to_vec());
    assert_eq!(read_chunked_body(&mut reader, 100), Ok(b"abc".to_vec()));
}

#[test]
fn test_read_chunked_body_drops_extensions_and_the_trailer_line() {
    let mut reader = ByteReader::new(b"3;x=y\r\nabc\r\n0;z\r\nTrailer: 1\r\n\r\n".to_vec());
    assert_eq!(read_chunked_body(&mut reader, 100), Ok(b"abc".to_vec()));
    assert_eq!(reader.read_to_end(), b"\r\n");
}

#[test]
fn test_read_chunked_body_stream_that_ends_early() {
    let mut reader = ByteReader::new(b"".to_vec());
    assert_eq!(read_chunked_body(&mut reader, 100), Ok(Vec::new()));
    let mut reader = ByteReader::new(b"3\r\nabc\r\n".to_vec());
    assert_eq!(read_chunked_body(&mut reader, 100), Ok(b"abc".to_vec()));
    let mut reader = ByteReader::new(b"3\r\nab".to_vec());
    assert_eq!(read_chunked_body(&mut reader, 100), Err(ProxyError::UnexpectedEof));
    let mut reader = ByteReader::new(b"3\r\nabc\r".to_vec());
    assert_eq!(read_chunked_body(&mut reader, 100), Err(ProxyError::UnexpectedEof));
    let mut reader = ByteReader::new(b"0\r\n".to_vec());
    assert_eq!(read_chunked_body(&mut reader, 100), Ok(Vec::new()));
}

#[test]
fn test_read_chunked_body_bad_size_line() {
    let mut reader = ByteReader::new(b"3\r\nabc\r\nxyz\r\n".to_vec());
    assert_eq!(read_chunked_body(&mut reader, 100), Err(ProxyError::InvalidChunkSize));
}

fn continued(progress: ChunkedProgress) -> ChunkedBody {
    match progress {
        ChunkedProgress::Continue(decoder) => decoder,
        _ => panic!("the decoder does not go on"),
    }
}

#[test]
fn test_decoder_step_by_step() {
    let decoder = ChunkedBody::new(8);
    assert_eq!(decoder.wanted(), Wanted::Line);
    let decoder = continued(decoder.feed(b"5\r\n"));
    assert_eq!(decoder.wanted(), Wanted::Exact(5));
    assert_eq!(decoder.buffered(), 0);
    let decoder = continued(decoder.feed(b"Hello"));
    assert_eq!(decoder.wanted(), Wanted::Exact(2));
    assert_eq!(decoder.buffered(), 5);
    let decoder = continued(decoder.feed(b"\r\n"));
    assert_eq!(decoder.wanted(), Wanted::Line);
    let decoder = continued(decoder.feed(b"3\r\n"));
    let decoder = continued(continued(decoder.feed(b"abc")).feed(b"\r\n"));
    assert_eq!(decoder.buffered(), 8);
    assert!(matches!(
        ChunkedBody::new(8).feed(b"9\r\n"),
        ChunkedProgress::Failed(ProxyError::BodyTooLarge)
    ));
    let decoder = continued(decoder.feed(b"0\r\n"));
    assert_eq!(decoder.wanted(), Wanted::Line);
    match decoder.feed(b"\r\n") {
        ChunkedProgress::Complete(body) => assert_eq!(body, b"Helloabc"),
        _ => panic!("the body is not complete"),
    }
}

#[test]
fn test_decoder_refuses_pieces_of_the_wrong_length() {
    let decoder = continued(ChunkedBody::new(8).feed(b"5\r\n"));
    assert!(matches!(decoder.feed(b"Hell"), ChunkedProgress::Failed(ProxyError::UnexpectedEof)));
    let decoder = continued(continued(ChunkedBody::new(8).feed(b"1\r\n")).feed(b"x"));
    assert!(matches!(decoder.feed(b"\r"), ChunkedProgress::Failed(ProxyError::UnexpectedEof)));
}

#[test]
fn test_reader() {
    let mut reader = ByteReader::new(b"ab\ncd\nef".to_vec());
    assert_eq!(reader.remaining_len(), 8);
    assert_eq!(reader.read_until(b'\n'), b"ab\n");
    assert_eq!(reader.read(1), b"c");
    assert_eq!(reader.read(0), b"");
    assert_eq!(reader.read_exact(2), Some(b"d\n".to_vec()));
    assert_eq!(reader.read_exact(0), Some(Vec::new()));
    assert_eq!(reader.read_until(b'\n'), b"ef");
    assert_eq!(reader.read_until(b'\n'), b"");
    assert_eq!(reader.read(10), b"");
    assert_eq!(reader.remaining_len(), 0);
}

#[test]
fn test_reader_gives_less_only_at_the_end() {
    let mut reader = ByteReader::new(vec![1u8; 10]);
    assert_eq!(reader.read(4).len(), 4);
    assert_eq!(reader.read(8).len(), 6);
    assert_eq!(reader.read(8).len(), 0);
}

#[test]
fn test_reader_failed_exact_read_ends_the_stream() {
    let mut reader = ByteReader::new(b"abc".to_vec());
    assert_eq!(reader.read_exact(4), None);
    assert_eq!(reader.remaining_len(), 0);
}

#[test]
fn test_reader_supplies_what_is_wanted() {
    let mut reader = ByteReader::new(b"ab\ncdefgh".to_vec());
    assert_eq!(reader.supply(Wanted::Line), Some(b"ab\n".to_vec()));
    assert_eq!(reader.supply(Wanted::UpTo(2)), Some(b"cd".to_vec()));
    assert_eq!(reader.supply(Wanted::Exact(3)), Some(b"efg".to_vec()));
    assert_eq!(reader.supply(Wanted::Exact(2)), None);
    assert_eq!(reader.supply(Wanted::Line), Some(Vec::new()));
}

#[test]
fn test_push_bytes() {
    let mut out = b"ab".to_vec();
    push_bytes(&mut out, b"");
    push_bytes(&mut out, b"cd");
    assert_eq!(out, b"abcd");
}

fn passed(stream: &[u8]) -> (Vec<u8>, Result<(), ProxyError>, Vec<u8>) {
    let mut reader = ByteReader::new(stream.to_vec());
    let mut writer = Vec::new();
    let result = pass_through_chunked(&mut reader, &mut writer);
    (writer, result, reader.read_to_end())
}

#[test]
fn test_pass_through_chunked_keeps_every_byte() {
    let body = b"5;ext=1\r\nHello\r\n00A \r\n0123456789\r\n0;last\r\n\r\n";
    let (written, result, left) = passed(body);
    assert_eq!(result, Ok(()));
    assert_eq!(written, body);
    assert_eq!(left, b"");
}

#[test]
fn test_pass_through_chunked_stops_behind_the_body() {
    let (written, result, left) = passed(b"1\r\nx\r\n0\r\n\r\nHTTP/1.1 200 OK\r\n");
    assert_eq!(result, Ok(()));
    assert_eq!(written, b"1\r\nx\r\n0\r\n\r\n");
    assert_eq!(left, b"HTTP/1.1 200 OK\r\n");
}

#[test]
fn test_pass_through_chunked_takes_the_trailer_as_one_line() {
    let (written, result, left) = passed(b"0\r\nX-Trailer: 1\r\n\r\n");
    assert_eq!(result, Ok(()));
    assert_eq!(written, b"0\r\nX-Trailer: 1\r\n");
    assert_eq!(left, b"\r\n");
}

#[test]
fn test_pass_through_chunked_large_chunk() {
    let data: Vec<u8> = (0..20_000u32).map(|i| (i % 253) as u8).collect();
    let mut body = b"4e20\r\n".to_vec();
    body.extend_from_slice(&data);
    body.extend_from_slice(b"\r\n0\r\n\r\n");
    let (written, result, left) = passed(&body);
    assert_eq!(result, Ok(()));
    assert!(written == body);
    assert_eq!(left, b"");
}

#[test]
fn test_pass_through_chunked_bad_size_line() {
    let (written, result, left) = passed(b"2\r\nab\r\nzz\r\nrest");
    assert_eq!(result, Err(ProxyError::InvalidChunkSize));
    // the line that could not be read has been passed on already
    assert_eq!(written, b"2\r\nab\r\nzz\r\n");
    assert_eq!(left, b"rest");
}

#[test]
fn test_pass_through_chunked_stream_that_ends_early() {
    let (written, result, _) = passed(b"");
    assert_eq!((written, result), (Vec::new(), Ok(())));
    let (written, result, _) = passed(b"5\r\nHel");
    assert_eq!(result, Err(ProxyError::UnexpectedEof));
    assert_eq!(written, b"5\r\nHel");
    let (written, result, _) = passed(b"5\r\nHello\r");
    assert_eq!(result, Err(ProxyError::UnexpectedEof));
    assert_eq!(written, b"5\r\nHello");
    let (written, result, _) = passed(b"5\r\nHello\r\n");
    assert_eq!(result, Ok(()));
    assert_eq!(written, b"5\r\nHello\r\n");
}

#[test]
fn test_relay_step_by_step() {
    assert_eq!(relay_wants(ChunkPhase::Size), Wanted::Line);
    assert_eq!(relay_wants(ChunkPhase::Data(3)), Wanted::UpTo(3));
    assert_eq!(relay_wants(ChunkPhase::Data(8192)), Wanted::UpTo(8192));
    assert_eq!(relay_wants(ChunkPhase::Data(8193)), Wanted::UpTo(8192));
    assert_eq!(relay_wants(ChunkPhase::Data(usize::MAX)), Wanted::UpTo(8192));
    assert_eq!(relay_wants(ChunkPhase::DataEnd), Wanted::Exact(2));
    assert_eq!(relay_wants(ChunkPhase::Trailer), Wanted::Line);

    assert_eq!(relay_chunk(ChunkPhase::Size, b""), RelayStep::Complete);
    assert_eq!(
        relay_chunk(ChunkPhase::Size, b"2000;x\r\n"),
        RelayStep::Continue(ChunkPhase::Data(8192))
    );
    assert_eq!(relay_chunk(ChunkPhase::Size, b"0\r\n"), RelayStep::Continue(ChunkPhase::Trailer));
    assert_eq!(
        relay_chunk(ChunkPhase::Size, b"\r\n"),
        RelayStep::Failed(ProxyError::InvalidChunkSize)
    );
    assert_eq!(
        relay_chunk(ChunkPhase::Data(10), b"abc"),
        RelayStep::Continue(ChunkPhase::Data(7))
    );
    assert_eq!(relay_chunk(ChunkPhase::Data(3), b"abc"), RelayStep::Continue(ChunkPhase::DataEnd));
    assert_eq!(relay_chunk(ChunkPhase::Data(3), b""), RelayStep::Continue(ChunkPhase::DataEnd));
    assert_eq!(relay_chunk(ChunkPhase::DataEnd, b"\r\n"), RelayStep::Continue(ChunkPhase::Size));
    assert_eq!(relay_chunk(ChunkPhase::DataEnd, b"xy"), RelayStep::Continue(ChunkPhase::Size));
    assert_eq!(
        relay_chunk(ChunkPhase::DataEnd, b"\r"),
        RelayStep::Failed(ProxyError::UnexpectedEof)
    );
    assert_eq!(relay_chunk(ChunkPhase::Trailer, b"\r\n"), RelayStep::Complete);
    assert_eq!(relay_chunk(ChunkPhase::Trailer, b""), RelayStep::Complete);
}

#[test]
fn test_pieces_of_a_part() {
    assert_eq!(RELAY_BUFFER_SIZE, 8192);
    assert_eq!(relay_limit(0), 0);
    assert_eq!(relay_limit(1), 1);
    assert_eq!(relay_limit(8192), 8192);
    assert_eq!(relay_limit(5_368_709_120), 8192);
    assert_eq!(left_of(10, 0), 10);
    assert_eq!(left_of(10, 4), 6);
    assert_eq!(left_of(10, 10), 0);
    assert_eq!(left_of(10, 11), 0);
}
