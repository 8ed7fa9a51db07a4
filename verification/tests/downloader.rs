use rangefetch::buffer::Reassembler;
use rangefetch::errors::FetchError;
use rangefetch::plan::plan_ranges;
use rangefetch::response::{download_chunk, get_content_length, read_response};
use rangefetch::stream::MemStream;
use sha2::{Digest, Sha256};

fn sha_direct(data: &[u8]) -> Vec<u8> {
    let mut h = Sha256::new();
    h.update(data);
    h.finalize().to_vec()
}

fn stream_of(response: &str) -> MemStream {
    MemStream::new(response.as_bytes().to_vec())
}

#[test]
fn test_get_content_length() {
    let response = "HTTP/1.1 200 OK\r\nContent-Length: 42\r\n\r\nsome data";
    let mut stream = stream_of(response);
    let result = get_content_length(&mut stream, "test");
    assert_eq!(result, Ok(42));

    let response = "HTTP/1.1 200 OK\r\n\r\nno length";
    let mut stream = stream_of(response);
    let result = get_content_length(&mut stream, "test");
    assert!(result.is_err());
    assert_eq!(result.unwrap_err(), FetchError::Protocol);
}

#[test]
fn test_download_chunk_full_response() {
    let response = "HTTP/1.1 206 Partial Content\r\nContent-Length: 5\r\n\r\nhello";
    let mut stream = stream_of(response);
    let chunk = download_chunk(&mut stream, "test", 0, 5).unwrap();
    assert_eq!(chunk, b"hello");
}

#[test]
fn test_download_chunk_empty_response() {
    let response = "HTTP/1.1 206 Partial Content\r\nContent-Length: 0\r\n\r\n";
    let mut stream = stream_of(response);
    let chunk = download_chunk(&mut stream, "test", 0, 5).unwrap();
    assert!(chunk.is_empty());
}

#[test]
fn test_process_chunks() {
    let mut buffer = Reassembler::new(10);

    // Normal case: contiguous chunks
    buffer.insert(5, vec![5, 6, 7, 8, 9]);
    buffer.insert(0, vec![0, 1, 2, 3, 4]);
    buffer.process_chunks().unwrap();
    assert_eq!(buffer.bytes_hashed(), 10);
    assert_eq!(buffer.pending_chunks(), 0);

    // Excess data case
    buffer.insert(10, vec![10]);
    let result = buffer.process_chunks();
    assert!(result.is_err());
    assert_eq!(result.unwrap_err(), FetchError::Overrun);
}

#[test]
fn test_multi_request_chunk_processing() {
    let mut buffer = Reassembler::new(10);

    // Simulate a worker fetching range 0-9 in multiple truncated requests
    let response1 = "HTTP/1.1 206 Partial Content\r\nContent-Length: 5\r\n\r\n01234";
    let mut stream1 = MemStream::with_cap(response1.as_bytes().to_vec(), 5);
    let chunk1 = download_chunk(&mut stream1, "test", 0, 10).unwrap();
    buffer.insert(0, chunk1); // First 5 bytes

    let response2 = "HTTP/1.1 206 Partial Content\r\nContent-Length: 5\r\n\r\n56789";
    let mut stream2 = stream_of(response2); // No truncation for simplicity
    let chunk2 = download_chunk(&mut stream2, "test", 5, 10).unwrap();
    buffer.insert(5, chunk2); // Next 5 bytes

    buffer.process_chunks().unwrap();
    assert_eq!(buffer.bytes_hashed(), 10);
    assert_eq!(buffer.pending_chunks(), 0);

    // Simulate gap (fallback needed)
    let mut buffer = Reassembler::new(10);
    buffer.insert(0, vec![0, 1, 2]); // Worker got only 0-2
    buffer.process_chunks().unwrap();
    assert_eq!(buffer.bytes_hashed(), 3); // Gap at 3-9 remains
    assert_eq!(buffer.pending_chunks(), 0);

    // Fallback simulation
    let response_fallback = "HTTP/1.1 206 Partial Content\r\nContent-Length: 7\r\n\r\n3456789";
    let mut stream_fallback = stream_of(response_fallback);
    let chunk_fallback = download_chunk(&mut stream_fallback, "test", 3, 10).unwrap();
    buffer.insert(3, chunk_fallback);
    buffer.process_chunks().unwrap();
    assert_eq!(buffer.bytes_hashed(), 10);
    assert_eq!(buffer.pending_chunks(), 0);
}

#[test]
fn merge_any_insertion_order_same_digest() {
    // A gap-free, non-overlapping cover of [0, 8) merged in two different
    // insertion orders gives the digest of the plain concatenation.
    let mut a = Reassembler::new(8);
    a.insert(0, b"abc".to_vec());
    a.insert(3, b"de".to_vec());
    a.insert(5, b"fgh".to_vec());
    a.process_chunks().unwrap();
    assert_eq!(a.bytes_hashed(), 8);

    let mut b = Reassembler::new(8);
    b.insert(5, b"fgh".to_vec());
    b.insert(0, b"abc".to_vec());
    b.insert(3, b"de".to_vec());
    b.process_chunks().unwrap();
    assert_eq!(b.bytes_hashed(), 8);

    let da = a.finalize();
    let db = b.finalize();
    assert_eq!(da, db);
    assert_eq!(da, sha_direct(b"abcdefgh"));
}

#[test]
fn merge_discards_chunk_behind_watermark() {
    // Merging {0: A} twice behaves exactly like merging it once.
    let mut once = Reassembler::new(3);
    once.insert(0, b"abc".to_vec());
    once.process_chunks().unwrap();
    assert_eq!(once.bytes_hashed(), 3);

    let mut twice = Reassembler::new(3);
    twice.insert(0, b"abc".to_vec());
    twice.process_chunks().unwrap();
    twice.insert(0, b"abc".to_vec());
    twice.process_chunks().unwrap();
    assert_eq!(twice.bytes_hashed(), 3);
    assert_eq!(twice.pending_chunks(), 0);

    assert_eq!(once.finalize(), twice.finalize());
}

#[test]
fn merge_halts_at_gap_and_resumes() {
    let mut buffer = Reassembler::new(6);
    buffer.insert(2, b"cd".to_vec());
    buffer.process_chunks().unwrap(); // gap before offset 2: no progress
    assert_eq!(buffer.bytes_hashed(), 0);
    assert_eq!(buffer.pending_chunks(), 1);

    buffer.insert(4, b"ef".to_vec()); // an unrelated later offset
    buffer.insert(0, b"ab".to_vec()); // the missing piece
    buffer.process_chunks().unwrap();
    assert_eq!(buffer.bytes_hashed(), 6);
    assert_eq!(buffer.pending_chunks(), 0);
    assert_eq!(buffer.finalize(), sha_direct(b"abcdef"));
}

#[test]
fn merge_overrun_fails_without_moving_watermark() {
    // watermark at S-1; a two-byte chunk there would occupy [S-1, S+1)
    let mut buffer = Reassembler::new(10);
    buffer.insert(0, vec![9; 9]);
    buffer.process_chunks().unwrap();
    assert_eq!(buffer.bytes_hashed(), 9);

    buffer.insert(9, vec![1, 2]);
    let result = buffer.process_chunks();
    assert_eq!(result, Err(FetchError::Overrun));
    assert_eq!(buffer.bytes_hashed(), 9);
}

#[test]
fn short_body_before_clean_close_is_not_an_error() {
    // Declared length 10, but the stream cleanly ends after 4 body bytes.
    let response = "HTTP/1.1 200 OK\r\nContent-Length: 10\r\n\r\nabcd";
    let mut stream = stream_of(response);
    let (headers, body) = read_response(&mut stream).unwrap();
    assert!(headers.ends_with(b"\r\n\r\n"));
    assert_eq!(body, b"abcd");
}

#[test]
fn over_delivered_fragment_is_capped_at_declared_length() {
    // One read delivers the headers and more body bytes than declared:
    // the body stops at the declared length.
    let mut stream = stream_of("HTTP/1.1 200 OK\r\nContent-Length: 3\r\n\r\nabcdefgh");
    let (_, body) = read_response(&mut stream).unwrap();
    assert_eq!(body, b"abc");
}

#[test]
fn gap_filled_by_several_chunks_resumes() {
    let mut buffer = Reassembler::new(8);
    buffer.insert(5, b"fgh".to_vec());
    buffer.process_chunks().unwrap(); // gap before offset 5: no progress
    assert_eq!(buffer.bytes_hashed(), 0);

    buffer.insert(0, b"ab".to_vec());
    buffer.insert(2, b"cde".to_vec());
    buffer.process_chunks().unwrap();
    assert_eq!(buffer.bytes_hashed(), 8);
    assert_eq!(buffer.pending_chunks(), 0);
    assert_eq!(buffer.finalize(), sha_direct(b"abcdefgh"));
}

#[test]
fn single_worker_end_to_end() {
    // Content-Length 10, one worker fetches [0, 9] in one response.
    let mut probe = stream_of("HTTP/1.1 200 OK\r\nContent-Length: 10\r\n\r\n0123456789");
    let total = get_content_length(&mut probe, "test").unwrap();
    assert_eq!(total, 10);

    let ranges = plan_ranges(total, 1);
    assert_eq!(ranges, vec![(0, 9)]);

    let mut buffer = Reassembler::new(total);
    let response = "HTTP/1.1 206 Partial Content\r\nContent-Length: 10\r\n\r\n0123456789";
    let mut stream = stream_of(response);
    let chunk = download_chunk(&mut stream, "test", 0, 10).unwrap();
    let next = buffer.deposit(0, Ok(chunk));
    assert_eq!(next, 10);
    buffer.process_chunks().unwrap();
    assert_eq!(buffer.bytes_hashed(), 10);
    assert_eq!(buffer.finalize(), sha_direct(b"0123456789"));
}

#[test]
fn two_workers_out_of_order_end_to_end() {
    // [0, 9] split into [0, 4] and [5, 9]; the second worker's chunk
    // arrives first and waits in the buffer.
    let total = 10;
    let ranges = plan_ranges(total, 2);
    assert_eq!(ranges, vec![(0, 4), (5, 9)]);

    let mut buffer = Reassembler::new(total);

    let mut stream2 = stream_of("HTTP/1.1 206 Partial Content\r\nContent-Length: 5\r\n\r\n56789");
    let chunk2 = download_chunk(&mut stream2, "test", 5, 10).unwrap();
    buffer.deposit(5, Ok(chunk2));
    buffer.process_chunks().unwrap();
    assert_eq!(buffer.bytes_hashed(), 0); // buffered, not yet hashable

    let mut stream1 = stream_of("HTTP/1.1 206 Partial Content\r\nContent-Length: 5\r\n\r\n01234");
    let chunk1 = download_chunk(&mut stream1, "test", 0, 5).unwrap();
    buffer.deposit(0, Ok(chunk1));
    buffer.process_chunks().unwrap();
    assert_eq!(buffer.bytes_hashed(), 10);
    assert_eq!(buffer.finalize(), sha_direct(b"0123456789"));
}

#[test]
fn empty_response_leaves_placeholder_byte_in_digest() {
    // The worker owning [0, 9] gets an empty response once at offset 3:
    // a one-byte placeholder is recorded there and the cursor advances,
    // so the final stream carries the placeholder, not the server's byte.
    let mut buffer = Reassembler::new(10);
    let mut cursor = buffer.deposit(0, Ok(b"012".to_vec()));
    assert_eq!(cursor, 3);
    cursor = buffer.deposit(cursor, Ok(Vec::new()));
    assert_eq!(cursor, 4);
    cursor = buffer.deposit(cursor, Ok(b"456789".to_vec()));
    assert_eq!(cursor, 10);
    buffer.process_chunks().unwrap();
    assert_eq!(buffer.bytes_hashed(), 10);
    let expected = [b'0', b'1', b'2', 0u8, b'4', b'5', b'6', b'7', b'8', b'9'];
    assert_eq!(buffer.finalize(), sha_direct(&expected));
}

#[test]
fn failed_fetch_leaves_placeholder_byte() {
    let mut buffer = Reassembler::new(4);
    let mut cursor = buffer.deposit(0, Ok(b"ab".to_vec()));
    assert_eq!(cursor, 2);
    cursor = buffer.deposit(cursor, Err(FetchError::Io));
    assert_eq!(cursor, 3);
    cursor = buffer.deposit(cursor, Ok(b"d".to_vec()));
    assert_eq!(cursor, 4);
    buffer.process_chunks().unwrap();
    assert_eq!(buffer.bytes_hashed(), 4);
    let expected = [b'a', b'b', 0u8, b'd'];
    assert_eq!(buffer.finalize(), sha_direct(&expected));
}

#[test]
fn content_length_is_case_insensitive() {
    let mut stream = stream_of("HTTP/1.1 200 OK\r\ncOnTeNt-LeNgTh: 7\r\n\r\n");
    assert_eq!(get_content_length(&mut stream, "test"), Ok(7));
}

#[test]
fn unparsable_content_length_is_a_decode_error() {
    let mut stream = stream_of("HTTP/1.1 200 OK\r\nContent-Length: abc\r\n\r\n");
    assert_eq!(get_content_length(&mut stream, "test"), Err(FetchError::Decode));

    // a value too large for the machine cannot be used either
    let mut stream = stream_of("HTTP/1.1 200 OK\r\nContent-Length: 99999999999999999999999999\r\n\r\n");
    assert_eq!(get_content_length(&mut stream, "test"), Err(FetchError::Decode));
}

#[test]
fn content_length_value_may_carry_whitespace_and_sign() {
    let mut stream = stream_of("HTTP/1.1 200 OK\r\nContent-Length:   42  \r\n\r\n");
    assert_eq!(get_content_length(&mut stream, "test"), Ok(42));

    let mut stream = stream_of("HTTP/1.1 200 OK\r\nContent-Length: +7\r\n\r\n");
    assert_eq!(get_content_length(&mut stream, "test"), Ok(7));
}

#[test]
fn missing_length_returns_the_initial_fragment() {
    // with no length-declaring header the reader keeps whatever body
    // bytes arrived with the headers and asks for nothing more
    let mut stream = stream_of("HTTP/1.1 200 OK\r\n\r\nabc");
    let (_, body) = read_response(&mut stream).unwrap();
    assert_eq!(body, b"abc");
}

#[test]
fn stream_closing_before_terminator_is_eof() {
    let mut stream = stream_of("HTTP/1.1 200 OK\r\nContent-Le");
    assert_eq!(get_content_length(&mut stream, "test"), Err(FetchError::UnexpectedEof));
}

#[test]
fn probe_request_wire_format() {
    let mut stream = stream_of("HTTP/1.1 200 OK\r\nContent-Length: 1\r\n\r\nx");
    get_content_length(&mut stream, "example:80").unwrap();
    let expected = "GET / HTTP/1.1\r\nHost: example:80\r\nConnection: close\r\n\r\n";
    assert_eq!(stream.written(), expected.as_bytes());
}

#[test]
fn range_request_wire_format() {
    let mut stream = stream_of("HTTP/1.1 206 Partial Content\r\nContent-Length: 1\r\n\r\nx");
    download_chunk(&mut stream, "example:80", 3, 10).unwrap();
    let expected = "GET / HTTP/1.1\r\nHost: example:80\r\nRange: bytes=3-10\r\nConnection: close\r\n\r\n";
    assert_eq!(stream.written(), expected.as_bytes());
}

#[test]
fn partition_follows_ceiling_rule() {
    // span = ceil(10 / 3) = 4
    assert_eq!(plan_ranges(10, 3), vec![(0, 3), (4, 7), (8, 9)]);
    // span = ceil(10 / 4) = 3
    assert_eq!(plan_ranges(10, 4), vec![(0, 2), (3, 5), (6, 8), (9, 9)]);
    // more workers than bytes: workers past the end are not created
    assert_eq!(plan_ranges(3, 5), vec![(0, 0), (1, 1), (2, 2)]);
    // an empty resource needs no workers
    assert_eq!(plan_ranges(0, 4), vec![]);
}

#[test]
fn fallback_repairs_the_first_unhashed_gap() {
    // A worker left [3, 9] unfetched; the completer closes the gap with
    // one direct fetch of the remaining range.
    let mut buffer = Reassembler::new(10);
    buffer.insert(0, b"012".to_vec());
    buffer.process_chunks().unwrap();
    assert_eq!(buffer.next_missing_range(), Some((3, 9)));

    let mut stream = stream_of("HTTP/1.1 206 Partial Content\r\nContent-Length: 7\r\n\r\n3456789");
    let chunk = download_chunk(&mut stream, "test", 3, 10).unwrap();
    buffer.deposit(3, Ok(chunk));
    buffer.process_chunks().unwrap();
    assert_eq!(buffer.next_missing_range(), None);
    assert_eq!(buffer.finalize(), sha_direct(b"0123456789"));
}

#[test]
fn digest_of_empty_resource() {
    let buffer = Reassembler::new(0);
    assert_eq!(buffer.finalize(), sha_direct(b""));
}

#[test]
fn truncated_reads_still_assemble_headers() {
    // One byte per read: the terminator spans several reads.
    let mut stream =
        MemStream::with_cap("HTTP/1.1 200 OK\r\nContent-Length: 2\r\n\r\nok".as_bytes().to_vec(), 1);
    let (_, body) = read_response(&mut stream).unwrap();
    assert_eq!(body, b"ok");
}
