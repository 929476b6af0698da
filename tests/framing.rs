use rpress::{Connection, DriverAction, ParseError, Request, Rpress};

fn frame(input: &[u8], is_chunk: bool) -> Result<Option<(Request, usize)>, ParseError> {
    let server = Rpress::build();
    server.parse_http_protocol(input, is_chunk)
}

fn complete(input: &[u8], is_chunk: bool) -> (Request, usize) {
    frame(input, is_chunk).unwrap().unwrap()
}

const HELLO: &[u8] = b"GET /a HTTP/1.1\r\nContent-Length: 5\r\n\r\nhello";

#[test]
fn content_length_request_is_complete() {
    let (req, consumed) = complete(HELLO, false);
    let meta = req.request_metadata.as_ref().unwrap();
    assert_eq!(meta.method, b"GET".to_vec());
    assert_eq!(meta.uri, b"/a".to_vec());
    assert_eq!(meta.http_method, b"HTTP/1.1".to_vec());
    assert_eq!(meta.headers.get(b"Content-Length"), Some(&b"5".to_vec()));
    assert_eq!(meta.headers.get(b"Host"), None);
    assert_eq!(req.payload, b"hello".to_vec());
    assert_eq!(HELLO.len(), 43);
    assert_eq!(consumed, 43);
}

#[test]
fn truncated_body_is_incomplete_and_buffer_kept() {
    let input = b"GET /a HTTP/1.1\r\nContent-Length: 5\r\n\r\nhel";
    assert!(frame(input, false).unwrap().is_none());
    let server = Rpress::build();
    let mut conn = Connection::new(1024);
    assert!(conn.receive(input));
    assert!(conn.next_request(&server).unwrap().is_none());
    assert_eq!(conn.pending_len(), 41);
}

#[test]
fn overflow_closes_without_request() {
    let server = Rpress::build();
    let mut conn = Connection::new(16);
    let (requests, action) = conn.on_read(&server, b"GET / HTTP/1.1\r\n\r\n");
    assert!(requests.is_empty());
    assert_eq!(action, DriverAction::CloseOverflow);
}

#[test]
fn buffer_at_ceiling_is_accepted() {
    let mut conn = Connection::new(18);
    assert!(conn.receive(b"GET / HTTP/1.1\r\n\r\n"));
    assert!(!conn.receive(b"x"));
}

#[test]
fn two_pipelined_requests() {
    let server = Rpress::build();
    let mut conn = Connection::new(4096);
    let one = b"GET /x HTTP/1.1\r\nContent-Length: 0\r\n\r\n";
    let mut both = one.to_vec();
    both.extend_from_slice(b"GET /y HTTP/1.1\r\nContent-Length: 0\r\n\r\n");
    assert!(conn.receive(&both));
    let first = conn.next_request(&server).unwrap().unwrap();
    assert_eq!(first.request_metadata.unwrap().uri, b"/x".to_vec());
    assert_eq!(conn.pending_len(), both.len() - one.len());
    let second = conn.next_request(&server).unwrap().unwrap();
    assert_eq!(second.request_metadata.unwrap().uri, b"/y".to_vec());
    assert_eq!(conn.pending_len(), 0);
    assert!(conn.next_request(&server).unwrap().is_none());
}

#[test]
fn pipelined_requests_in_one_read() {
    let server = Rpress::build();
    let mut conn = Connection::new(4096);
    let input = b"GET /x HTTP/1.1\r\nContent-Length: 0\r\n\r\nGET /y HTTP/1.1\r\nContent-Length: 0\r\n\r\n";
    let (requests, action) = conn.on_read(&server, input);
    assert_eq!(requests.len(), 2);
    assert_eq!(action, DriverAction::ReadMore);
    assert_eq!(conn.pending_len(), 0);
}

#[test]
fn chunked_body_is_reassembled() {
    let input = b"POST /u HTTP/1.1\r\nTransfer-Encoding: chunked\r\n\r\n5\r\nhello\r\n3\r\nabc\r\n0\r\n\r\n";
    let (req, consumed) = complete(input, false);
    assert_eq!(req.payload, b"helloabc".to_vec());
    assert_eq!(consumed, input.len());
    let meta = req.request_metadata.unwrap();
    assert_eq!(meta.method, b"POST".to_vec());
    assert_eq!(meta.headers.get(b"Transfer-Encoding"), Some(&b"chunked".to_vec()));
}

#[test]
fn chunked_body_waits_for_terminal_chunk() {
    let input = b"POST /u HTTP/1.1\r\nTransfer-Encoding: chunked\r\n\r\n5\r\nhello\r\n3\r\nabc\r\n";
    assert!(frame(input, false).unwrap().is_none());
}

#[test]
fn chunk_extension_and_trailers_are_skipped() {
    let input = b"POST /u HTTP/1.1\r\nTransfer-Encoding: chunked\r\n\r\na;name=v\r\n0123456789\r\n0\r\nX-Sum: 1\r\n\r\nGET";
    let (req, consumed) = complete(input, false);
    assert_eq!(req.payload, b"0123456789".to_vec());
    assert_eq!(consumed, input.len() - 3);
}

#[test]
fn connection_flag_routes_to_chunk_decoder() {
    let input = b"POST /u HTTP/1.1\r\nX: y\r\n\r\n3\r\nabc\r\n0\r\n\r\n";
    let (req, consumed) = complete(input, true);
    assert_eq!(req.payload, b"abc".to_vec());
    assert_eq!(consumed, input.len());
}

#[test]
fn segmented_input_frames_as_whole() {
    let server = Rpress::build();
    let mut conn = Connection::new(4096);
    let mut got = Vec::new();
    for i in 0..HELLO.len() {
        let (requests, action) = conn.on_read(&server, &HELLO[i..i + 1]);
        assert_eq!(action, DriverAction::ReadMore);
        got.extend(requests);
    }
    assert_eq!(got.len(), 1);
    let (whole, _) = complete(HELLO, false);
    let a = got[0].request_metadata.as_ref().unwrap();
    let b = whole.request_metadata.as_ref().unwrap();
    assert_eq!(a.method, b.method);
    assert_eq!(a.uri, b.uri);
    assert_eq!(a.http_method, b.http_method);
    assert_eq!(a.headers.get(b"Content-Length"), b.headers.get(b"Content-Length"));
    assert_eq!(got[0].payload, whole.payload);
    assert_eq!(conn.pending_len(), 0);
}

#[test]
fn framing_twice_gives_same_outcome() {
    let server = Rpress::build();
    let (r1, n1) = server.parse_http_protocol(HELLO, false).unwrap().unwrap();
    let (r2, n2) = server.parse_http_protocol(HELLO, false).unwrap().unwrap();
    assert_eq!(n1, n2);
    assert_eq!(r1.payload, r2.payload);
    let partial = &HELLO[..20];
    assert!(server.parse_http_protocol(partial, false).unwrap().is_none());
    assert!(server.parse_http_protocol(partial, false).unwrap().is_none());
}

#[test]
fn request_without_headers() {
    let input = b"GET / HTTP/1.1\r\n\r\n";
    let (req, consumed) = complete(input, false);
    assert_eq!(consumed, 18);
    assert!(req.payload.is_empty());
}

#[test]
fn missing_request_line_end_is_incomplete() {
    assert!(frame(b"GET / HTTP/1.1", false).unwrap().is_none());
    assert!(frame(b"", false).unwrap().is_none());
    assert!(frame(b"GET / HTTP/1.1\r\nHost: a\r\n", false).unwrap().is_none());
}

#[test]
fn duplicate_header_last_wins() {
    let input = b"GET / HTTP/1.1\r\nContent-Length: 9\r\nContent-Length: 2\r\n\r\nokNEXT";
    let (req, consumed) = complete(input, false);
    assert_eq!(req.payload, b"ok".to_vec());
    assert_eq!(consumed, input.len() - 4);
    let meta = req.request_metadata.unwrap();
    assert_eq!(meta.headers.get(b"Content-Length"), Some(&b"2".to_vec()));
}

#[test]
fn header_value_keeps_later_separators() {
    let (req, _) = complete(b"GET / HTTP/1.1\r\nX: a: b\r\n\r\n", false);
    let meta = req.request_metadata.unwrap();
    assert_eq!(meta.headers.get(b"X"), Some(&b"a: b".to_vec()));
}

#[test]
fn bad_request_line_is_malformed() {
    assert_eq!(frame(b"GET /\r\n\r\n", false).err(), Some(ParseError::RequestLine));
    assert_eq!(frame(b"GET / HTTP/1.0\r\n\r\n", false).err(), Some(ParseError::RequestLine));
    assert_eq!(frame(b"GET / x HTTP/1.1\r\n\r\n", false).err(), Some(ParseError::RequestLine));
}

#[test]
fn header_without_separator_is_malformed() {
    assert_eq!(frame(b"GET / HTTP/1.1\r\nHost localhost\r\n\r\n", false).err(), Some(ParseError::HeaderLine));
}

#[test]
fn non_numeric_content_length_is_malformed() {
    assert_eq!(frame(b"GET / HTTP/1.1\r\nContent-Length: abc\r\n\r\n", false).err(), Some(ParseError::ContentLength));
    assert_eq!(
        frame(b"GET / HTTP/1.1\r\nContent-Length: 99999999999999999999999\r\n\r\n", false).err(),
        Some(ParseError::ContentLength)
    );
}

#[test]
fn bad_chunk_size_is_malformed() {
    let input = b"POST / HTTP/1.1\r\nTransfer-Encoding: chunked\r\n\r\nzz\r\n";
    assert_eq!(frame(input, false).err(), Some(ParseError::ChunkSize));
}

#[test]
fn missing_chunk_trailer_is_malformed() {
    let input = b"POST / HTTP/1.1\r\nTransfer-Encoding: chunked\r\n\r\n3\r\nabcXY0\r\n\r\n";
    assert_eq!(frame(input, false).err(), Some(ParseError::ChunkTrailer));
}

#[test]
fn hex_chunk_sizes_in_both_cases() {
    let mut input = b"POST / HTTP/1.1\r\nTransfer-Encoding: chunked\r\n\r\n1A\r\n".to_vec();
    input.extend_from_slice(&[b'x'; 26]);
    input.extend_from_slice(b"\r\nb\r\n");
    input.extend_from_slice(&[b'y'; 11]);
    input.extend_from_slice(b"\r\n0\r\n\r\n");
    let (req, consumed) = complete(&input, false);
    assert_eq!(req.payload.len(), 37);
    assert_eq!(consumed, input.len());
}

#[test]
fn malformed_bytes_close_connection_and_stay() {
    let server = Rpress::build();
    let mut conn = Connection::new(4096);
    let (requests, action) = conn.on_read(&server, b"BROKEN\r\n");
    assert!(requests.is_empty());
    assert_eq!(action, DriverAction::CloseMalformed(ParseError::RequestLine));
    assert_eq!(conn.pending_len(), 8);
}

#[test]
fn routes_are_registered_in_order() {
    let mut app = Rpress::build();
    app.add_route("/firstname");
    app.add_route("/lastname");
    assert_eq!(app.routes.len(), 2);
    assert_eq!(app.routes[0].name, "/firstname");
    assert_eq!(app.routes[1].name, "/lastname");
}

#[test]
fn frame_buffer_append_and_drain() {
    let mut buf = rpress::FrameBuffer::new(8);
    buf.append(b"");
    assert_eq!(buf.len(), 0);
    buf.append(b"abcdef");
    buf.drain_prefix(2);
    assert_eq!(buf.as_slice(), b"cdef");
    buf.drain_prefix(0);
    assert_eq!(buf.len(), 4);
    buf.append(b"ghijk");
    assert!(buf.over_capacity());
    buf.drain_prefix(9);
    assert_eq!(buf.len(), 0);
}

const PLAIN: &[u8] = b"POST /p HTTP/1.1\r\nContent-Length: 3\r\n\r\nabc";
const CHUNKED: &[u8] = b"POST /c HTTP/1.1\r\nTransfer-Encoding: chunked\r\n\r\n2\r\nxy\r\n0\r\n\r\n";

fn uris_and_payloads(requests: &[Request]) -> Vec<(Vec<u8>, Vec<u8>)> {
    requests
        .iter()
        .map(|r| (r.request_metadata.as_ref().unwrap().uri.clone(), r.payload.clone()))
        .collect()
}

fn run_reads(reads: &[&[u8]]) -> Vec<(Vec<u8>, Vec<u8>)> {
    let server = Rpress::build();
    let mut conn = Connection::new(4096);
    let mut got = Vec::new();
    for read in reads {
        let (requests, action) = conn.on_read(&server, read);
        assert_eq!(action, DriverAction::ReadMore);
        got.extend(requests);
    }
    assert_eq!(conn.pending_len(), 0);
    uris_and_payloads(&got)
}

#[test]
fn content_length_then_chunked_in_one_read() {
    let both = [PLAIN, CHUNKED].concat();
    let expected = vec![(b"/p".to_vec(), b"abc".to_vec()), (b"/c".to_vec(), b"xy".to_vec())];
    assert_eq!(run_reads(&[&both]), expected);
    assert_eq!(run_reads(&[PLAIN, CHUNKED]), expected);
    assert_eq!(run_reads(&[&both[..30], &both[30..70], &both[70..]]), expected);
}

#[test]
fn chunked_then_content_length_in_one_read() {
    let both = [CHUNKED, PLAIN].concat();
    let expected = vec![(b"/c".to_vec(), b"xy".to_vec()), (b"/p".to_vec(), b"abc".to_vec())];
    assert_eq!(run_reads(&[&both]), expected);
    assert_eq!(run_reads(&[CHUNKED, PLAIN]), expected);
    assert_eq!(run_reads(&[&both[..50], &both[50..]]), expected);
}

#[test]
fn plain_get_after_chunked_request() {
    let get = b"GET /g HTTP/1.1\r\n\r\n";
    let expected = vec![(b"/c".to_vec(), b"xy".to_vec()), (b"/g".to_vec(), Vec::new())];
    assert_eq!(run_reads(&[CHUNKED, get]), expected);
    assert_eq!(run_reads(&[&[CHUNKED, &get[..]].concat()]), expected);
}

#[test]
fn pipelined_get_requests_emitted_in_order() {
    let input = b"GET /a HTTP/1.1\r\nContent-Length: 0\r\n\r\nGET /b HTTP/1.1\r\nContent-Length: 0\r\n\r\n";
    assert_eq!(
        run_reads(&[input]),
        vec![(b"/a".to_vec(), Vec::new()), (b"/b".to_vec(), Vec::new())]
    );
}
