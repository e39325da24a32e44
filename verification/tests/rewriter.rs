//! Whole responses through the proxy: what the client receives for what the
//! origin sends.

use dlnaproxy::chunked::ProxyError;
use dlnaproxy::stream::{ByteReader, Wanted, RELAY_BUFFER_SIZE};
use dlnaproxy::tcp_proxy::{
    is_end_of_headers, plan_framing, proxy_response_with_rewrite, rewrite_response, Framing, Next,
    Rewriter, TCPProxy, MAX_CONCURRENT_CONNECTIONS, MAX_REWRITABLE_BODY_SIZE,
};
use std::time::Duration;

fn proxy() -> TCPProxy {
    TCPProxy::new(
        Duration::from_secs(10),
        Duration::from_secs(300),
        "10.0.0.1",
        8000,
        "192.168.1.2",
        9000,
    )
}

fn relay(origin: &[u8]) -> (Vec<u8>, Result<(), ProxyError>) {
    let mut reader = ByteReader::new(origin.to_vec());
    let mut client = Vec::new();
    let result = proxy_response_with_rewrite(&mut reader, &mut client, &proxy());
    (client, result)
}

fn continued(next: Next) -> Rewriter {
    match next {
        Next::Continue(machine) => machine,
        _ => panic!("the machine does not go on"),
    }
}

#[test]
fn test_proxy_url_bases() {
    let proxy = TCPProxy::new(
        Duration::from_secs(7),
        Duration::from_secs(9),
        "192.168.1.41",
        55555,
        "192.168.1.52",
        8100,
    );
    assert_eq!(proxy.origin_url_base(), "http://192.168.1.41:55555");
    assert_eq!(proxy.proxy_url_base(), "http://192.168.1.52:8100");
    assert_eq!(proxy.connect_timeout(), Duration::from_secs(7));
    assert_eq!(proxy.stream_timeout(), Duration::from_secs(9));
}

#[test]
fn test_proxy_url_base_port_bounds() {
    let proxy = TCPProxy::new(Duration::ZERO, Duration::ZERO, "a", 0, "b", 65535);
    assert_eq!(proxy.origin_url_base(), "http://a:0");
    assert_eq!(proxy.proxy_url_base(), "http://b:65535");
}

#[test]
fn test_limits() {
    assert_eq!(MAX_REWRITABLE_BODY_SIZE, 10_485_760);
    assert_eq!(MAX_CONCURRENT_CONNECTIONS, 100);
    assert_eq!(RELAY_BUFFER_SIZE, 8192);
}

#[test]
fn test_fixed_length_xml_is_rewritten() {
    let mut body = b"<URLBase>http://10.0.0.1:8000/</URLBase>".to_vec();
    body.resize(64, b' ');
    let mut origin =
        b"HTTP/1.1 200 OK\r\nContent-Type: text/xml\r\nContent-Length: 64\r\n\r\n".to_vec();
    origin.extend_from_slice(&body);

    let (client, result) = relay(&origin);
    assert_eq!(result, Ok(()));
    let mut expected =
        b"HTTP/1.1 200 OK\r\nContent-Type: text/xml\r\nContent-Length: 67\r\n\r\n".to_vec();
    expected.extend_from_slice(b"<URLBase>http://192.168.1.2:9000/</URLBase>");
    expected.resize(expected.len() + 24, b' ');
    assert_eq!(client, expected);
}

#[test]
fn test_same_length_keeps_the_header_block() {
    let origin = b"HTTP/1.1 200 OK\nCONTENT-TYPE: application/json\ncontent-length:  5 \n\nhello";
    let (client, result) = relay(origin);
    assert_eq!(result, Ok(()));
    assert_eq!(client, origin);
}

#[test]
fn test_changed_length_normalises_the_header_block() {
    let origin =
        b"HTTP/1.1 200 OK\ncontent-type: text/plain\ncontent-length: 20\nX: y\n\nhttp://10.0.0.1:8000";
    let (client, _) = relay(origin);
    assert_eq!(
        String::from_utf8(client).unwrap(),
        "HTTP/1.1 200 OK\r\ncontent-type: text/plain\r\nContent-Length: 23\r\nX: y\r\n\r\n\
         http://192.168.1.2:9000"
    );
}

#[test]
fn test_invalid_utf8_in_a_rewritten_body() {
    let origin = b"HTTP/1.1 200 OK\r\nContent-Type: text/plain\r\nContent-Length: 3\r\n\r\na\xffb";
    let (client, result) = relay(origin);
    assert_eq!(result, Ok(()));
    assert_eq!(
        client,
        b"HTTP/1.1 200 OK\r\nContent-Type: text/plain\r\nContent-Length: 5\r\n\r\na\xef\xbf\xbdb"
    );
}

#[test]
fn test_large_media_stream_is_relayed_in_small_reads() {
    let header = b"HTTP/1.1 200 OK\r\nContent-Type: video/mp4\r\nContent-Length: 5368709120\r\n\r\n";
    let proxy = proxy();
    let mut machine = Rewriter::new();
    let mut written = Vec::new();
    for line in header.split_inclusive(|b| *b == b'\n') {
        assert_eq!(machine.wanted(), Wanted::Line);
        let step = machine.step(&proxy, line);
        written.extend_from_slice(&step.output);
        machine = continued(step.next);
    }
    assert_eq!(written, header);

    let piece = vec![0xA5u8; RELAY_BUFFER_SIZE];
    let mut remaining: u64 = 5_368_709_120;
    let mut short_reads = 0;
    for round in 0..2000u64 {
        assert_eq!(machine.wanted(), Wanted::UpTo(RELAY_BUFFER_SIZE));
        let data = if round % 7 == 3 { &piece[..1000] } else { &piece[..] };
        if data.len() < RELAY_BUFFER_SIZE {
            short_reads += 1;
        }
        let step = machine.step(&proxy, data);
        assert_eq!(step.output, data);
        assert!(!step.flush);
        remaining -= data.len() as u64;
        machine = continued(step.next);
    }
    assert!(short_reads > 0);
    assert!(remaining > 0);
}

#[test]
fn test_media_body_is_relayed_to_its_last_byte() {
    let body: Vec<u8> = (0..100_000u32).map(|i| (i % 251) as u8).collect();
    let mut origin =
        b"HTTP/1.1 200 OK\r\nContent-Type: video/mp4\r\nContent-Length: 100000\r\n\r\n".to_vec();
    origin.extend_from_slice(&body);
    origin.extend_from_slice(b"HTTP/1.1 304 Not Modified\r\nContent-Length: 0\r\n\r\n");
    let (client, result) = relay(&origin);
    assert_eq!(result, Ok(()));
    assert_eq!(client, origin);
}

#[test]
fn test_last_piece_of_a_relayed_body() {
    let proxy = proxy();
    let mut machine = Rewriter::new();
    for line in [&b"HTTP/1.1 200 OK\r\n"[..], b"Content-Length: 8200\r\n", b"\r\n"] {
        machine = continued(machine.step(&proxy, line).next);
    }
    assert_eq!(machine.wanted(), Wanted::UpTo(8192));
    let step = machine.step(&proxy, &[7u8; 8192]);
    assert!(!step.flush);
    machine = continued(step.next);
    assert_eq!(machine.wanted(), Wanted::UpTo(8));
    let step = machine.step(&proxy, &[7u8; 8]);
    assert_eq!(step.output, [7u8; 8]);
    assert!(step.flush);
    assert_eq!(continued(step.next).wanted(), Wanted::Line);
}

#[test]
fn test_text_above_the_budget_is_relayed_unchanged() {
    let size = MAX_REWRITABLE_BODY_SIZE + 1;
    let mut origin =
        format!("HTTP/1.1 200 OK\r\nContent-Type: text/xml\r\nContent-Length: {}\r\n\r\n", size)
            .into_bytes();
    let url = b"http://10.0.0.1:8000/";
    origin.extend_from_slice(url);
    origin.resize(origin.len() + size - url.len(), b'x');
    let (client, result) = relay(&origin);
    assert_eq!(result, Ok(()));
    assert!(client == origin);
}

#[test]
fn test_text_at_the_budget_is_rewritten() {
    let size = MAX_REWRITABLE_BODY_SIZE;
    let mut origin =
        format!("HTTP/1.1 200 OK\r\nContent-Type: text/xml\r\nContent-Length: {}\r\n\r\n", size)
            .into_bytes();
    let url = b"http://10.0.0.1:8000/";
    origin.extend_from_slice(url);
    origin.resize(origin.len() + size - url.len(), b'x');
    let (client, result) = relay(&origin);
    assert_eq!(result, Ok(()));
    let head = format!(
        "HTTP/1.1 200 OK\r\nContent-Type: text/xml\r\nContent-Length: {}\r\n\r\nhttp://192.168.1.2:9000/x",
        size + 3
    );
    assert!(client.starts_with(head.as_bytes()));
    assert_eq!(client.len(), head.len() - 1 + size - url.len());
}

#[test]
fn test_chunked_xml_becomes_a_single_chunk() {
    let first = format!("{:<100}", "<root><URLBase>http://10.0.0.1:8000/</URLBase>");
    let second = format!("{:<100}", "</root>");
    let origin = format!(
        "HTTP/1.1 200 OK\r\nContent-Type: text/xml\r\nTransfer-Encoding: chunked\r\n\r\n\
         64;note=first\r\n{}\r\n64\r\n{}\r\n0\r\n\r\n",
        first, second
    );
    let (client, result) = relay(origin.as_bytes());
    assert_eq!(result, Ok(()));
    let body = format!("{}{}", first, second).replace("10.0.0.1:8000", "192.168.1.2:9000");
    assert_eq!(body.len(), 203);
    let expected = format!(
        "HTTP/1.1 200 OK\r\nContent-Type: text/xml\r\nTransfer-Encoding: chunked\r\n\r\n\
         cb\r\n{}\r\n0\r\n\r\n",
        body
    );
    assert_eq!(String::from_utf8(client).unwrap(), expected);
}

#[test]
fn test_chunked_media_is_relayed_byte_for_byte() {
    let origin = b"HTTP/1.1 200 OK\r\nContent-Type: video/mp4\r\nTransfer-Encoding: chunked\r\n\r\n\
        5;ext=1\r\n\x00\x01\x02\x03\x04\r\n00A\r\n0123456789\r\n0 \r\n\r\nHTTP/1.1 204 No Content\r\n\r\n";
    let (client, result) = relay(origin);
    assert_eq!(result, Ok(()));
    assert_eq!(client, origin);
}

#[test]
fn test_chunked_trailer_is_relayed_as_one_line() {
    let origin = b"HTTP/1.1 200 OK\r\nTransfer-Encoding: chunked\r\n\r\n0\r\nX-Trailer: 1\r\n\r\n";
    let (client, result) = relay(origin);
    assert_eq!(result, Ok(()));
    // the empty line after the trailer is read as a header block of its own
    assert_eq!(client, origin);
}

#[test]
fn test_chunked_relay_with_a_bad_size_line() {
    let origin = b"HTTP/1.1 200 OK\r\nTransfer-Encoding: chunked\r\n\r\nzz\r\nabc";
    let (client, result) = relay(origin);
    assert_eq!(result, Err(ProxyError::InvalidChunkSize));
    assert_eq!(client, b"HTTP/1.1 200 OK\r\nTransfer-Encoding: chunked\r\n\r\nzz\r\n");
}

#[test]
fn test_chunked_rewrite_above_the_budget_fails() {
    let origin = b"HTTP/1.1 200 OK\r\nContent-Type: text/html\r\nTransfer-Encoding: chunked\r\n\r\n\
        A00001\r\n";
    let (client, result) = relay(origin);
    assert_eq!(result, Err(ProxyError::BodyTooLarge));
    assert!(result.unwrap_err().is_invalid_data());
    assert_eq!(client, b"");
}

#[test]
fn test_chunked_rewrite_with_declared_length() {
    let origin = b"HTTP/1.1 200 OK\r\nContent-Type: text/html\r\nContent-Length: 999\r\n\
        Transfer-Encoding: chunked\r\n\r\n14\r\nhttp://10.0.0.1:8000\r\n0\r\n\r\n";
    let (client, result) = relay(origin);
    assert_eq!(result, Ok(()));
    assert_eq!(
        String::from_utf8(client).unwrap(),
        "HTTP/1.1 200 OK\r\nContent-Type: text/html\r\nContent-Length: 23\r\n\
         Transfer-Encoding: chunked\r\n\r\n17\r\nhttp://192.168.1.2:9000\r\n0\r\n\r\n"
    );
}

#[test]
fn test_rewrite_of_a_short_body_fails() {
    let origin = b"HTTP/1.1 200 OK\r\nContent-Type: text/html\r\nContent-Length: 10\r\n\r\nshort";
    let (client, result) = relay(origin);
    assert_eq!(result, Err(ProxyError::UnexpectedEof));
    assert!(!result.unwrap_err().is_invalid_data());
    assert_eq!(client, b"");
}

#[test]
fn test_without_framing_the_stream_is_relayed_to_its_end() {
    let origin = b"HTTP/1.0 200 OK\r\nContent-Type: text/xml\r\n\r\nhttp://10.0.0.1:8000/\r\n\r\nmore";
    let (client, result) = relay(origin);
    assert_eq!(result, Ok(()));
    assert_eq!(client, origin);
}

#[test]
fn test_stream_that_ends_at_once() {
    let (client, result) = relay(b"");
    assert_eq!(result, Ok(()));
    assert_eq!(client, b"");
}

#[test]
fn test_stream_that_ends_inside_a_header_block() {
    let (client, result) = relay(b"HTTP/1.1 200 OK\r\nContent-Type: text/xml\r\n");
    assert_eq!(result, Ok(()));
    assert_eq!(client, b"");
}

#[test]
fn test_responses_on_one_connection() {
    let origin = b"HTTP/1.1 200 OK\r\nContent-Type: text/xml\r\nContent-Length: 21\r\n\r\n\
        http://10.0.0.1:8000/HTTP/1.1 200 OK\r\nContent-Type: image/png\r\nContent-Length: 21\r\n\r\n\
        http://10.0.0.1:8000/HTTP/1.1 200 OK\r\ncontent-type: text/xml\r\nContent-Length: 0\r\n\r\n";
    let (client, result) = relay(origin);
    assert_eq!(result, Ok(()));
    assert_eq!(
        String::from_utf8(client).unwrap(),
        "HTTP/1.1 200 OK\r\nContent-Type: text/xml\r\nContent-Length: 24\r\n\r\n\
         http://192.168.1.2:9000/HTTP/1.1 200 OK\r\nContent-Type: image/png\r\nContent-Length: 21\r\n\r\n\
         http://10.0.0.1:8000/HTTP/1.1 200 OK\r\ncontent-type: text/xml\r\nContent-Length: 0\r\n\r\n"
    );
}

#[test]
fn test_last_content_length_line_counts() {
    let origin =
        b"HTTP/1.1 200 OK\r\nContent-Length: 1\r\nContent-Length: 3\r\n\r\nabcHTTP/1.1 200 OK\r\n";
    let (client, _) = relay(origin);
    // the header block that the stream ends in is not passed on
    assert_eq!(client, &origin[..origin.len() - 17]);
    // a line that is no number takes the length away again
    let origin = b"HTTP/1.1 200 OK\r\nContent-Length: 1\r\nContent-Length: x\r\n\r\nabc\r\n\r\n";
    let (client, _) = relay(origin);
    assert_eq!(client, origin);
}

#[test]
fn test_status_line_is_reported_once_per_response() {
    let proxy = proxy();
    let step = Rewriter::new().step(&proxy, b"HTTP/1.1 200\x07 OK\xff\r\n");
    assert_eq!(step.status, None);
    let step = continued(step.next).step(&proxy, b"Content-Length: 0\r\n");
    assert_eq!(step.status, None);
    let step = continued(step.next).step(&proxy, b"\r\n");
    assert_eq!(step.status.as_deref(), Some("HTTP/1.1 200 OK"));
    assert!(step.flush);
}

#[test]
fn test_machine_ends_on_end_of_stream() {
    let step = Rewriter::new().step(&proxy(), b"");
    assert!(matches!(step.next, Next::Done));
    assert_eq!(step.output, b"");
}

#[test]
fn test_machine_hands_the_rest_over_without_framing() {
    let proxy = proxy();
    let step = Rewriter::new().step(&proxy, b"HTTP/1.1 200 OK\n");
    let step = continued(step.next).step(&proxy, b"\n");
    assert!(matches!(step.next, Next::StreamRest));
    assert_eq!(step.output, b"HTTP/1.1 200 OK\n\n");
    assert!(step.flush);
}

#[test]
fn test_machine_wants_a_rewritten_body_whole() {
    let proxy = proxy();
    let mut machine = Rewriter::new();
    for line in [&b"HTTP/1.1 200 OK\r\n"[..], b"Content-Type: text/xml\r\n", b"Content-Length: 12345\r\n"] {
        machine = continued(machine.step(&proxy, line).next);
    }
    let step = machine.step(&proxy, b"\r\n");
    assert_eq!(step.output, b"");
    assert_eq!(continued(step.next).wanted(), Wanted::Exact(12345));
}

#[test]
fn test_framing() {
    let max = MAX_REWRITABLE_BODY_SIZE;
    assert_eq!(plan_framing(None, false, true), Framing::UntilClose);
    assert_eq!(plan_framing(None, false, false), Framing::UntilClose);
    assert_eq!(plan_framing(None, true, true), Framing::RewriteChunked);
    assert_eq!(plan_framing(None, true, false), Framing::RelayChunked);
    assert_eq!(plan_framing(Some(0), false, true), Framing::RewriteFixed(0));
    assert_eq!(plan_framing(Some(max), false, true), Framing::RewriteFixed(max));
    assert_eq!(plan_framing(Some(max + 1), false, true), Framing::RelayFixed(max + 1));
    assert_eq!(plan_framing(Some(5), false, false), Framing::RelayFixed(5));
    assert_eq!(plan_framing(Some(5), true, true), Framing::RewriteChunked);
    assert_eq!(plan_framing(Some(max + 1), true, true), Framing::RelayChunked);
    assert_eq!(plan_framing(Some(5), true, false), Framing::RelayChunked);
}

#[test]
fn test_rewrite_response_parts() {
    let proxy = proxy();
    let headers = "HTTP/1.1 200 OK\r\nContent-Length: 4\r\n\r\n";
    assert_eq!(
        rewrite_response(&proxy, headers, true, false, 4, "abcd"),
        b"HTTP/1.1 200 OK\r\nContent-Length: 4\r\n\r\nabcd"
    );
    assert_eq!(
        rewrite_response(&proxy, headers, true, false, 3, "abcd"),
        b"HTTP/1.1 200 OK\r\nContent-Length: 4\r\n\r\nabcd"
    );
    assert_eq!(
        rewrite_response(&proxy, headers, false, true, 3, "abcd"),
        b"HTTP/1.1 200 OK\r\nContent-Length: 4\r\n\r\n4\r\nabcd\r\n0\r\n\r\n"
    );
    assert_eq!(
        rewrite_response(&proxy, "H\n\n", true, true, 0, ""),
        b"H\n\n0\r\n\r\n0\r\n\r\n"
    );
}

#[test]
fn test_end_of_headers() {
    assert!(is_end_of_headers(b"\r\n"));
    assert!(is_end_of_headers(b"\n"));
    assert!(!is_end_of_headers(b""));
    assert!(!is_end_of_headers(b"\r"));
    assert!(!is_end_of_headers(b" \r\n"));
    assert!(!is_end_of_headers(b"\n\n"));
    assert!(!is_end_of_headers(b"a\n"));
}
