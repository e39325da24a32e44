//! Reading datagrams as requests, and the verdict on them.

use dlnaproxy::ssdp::listener::{
    handle_datagram, judge, parse_ssdp, request_from, should_respond, HeaderMap, SsdpError,
    Verdict, MAX_HEADERS,
};


#[test]
fn test_parse_ssdp_msearch_ssdp_all() {
    let packet = b"M-SEARCH * HTTP/1.1\r\n\
        HOST: 239.255.255.250:1900\r\n\
        MAN: \"ssdp:discover\"\r\n\
        MX: 3\r\n\
        ST: ssdp:all\r\n\
        \r\n";

    let (method, headers) = parse_ssdp(packet).unwrap();
    assert_eq!(method, "M-SEARCH");
    assert_eq!(headers.get("ST").map(|s| s.as_str()), Some("ssdp:all"));
}

#[test]
fn test_parse_ssdp_msearch_mediaserver() {
    let packet = b"M-SEARCH * HTTP/1.1\r\n\
        HOST: 239.255.255.250:1900\r\n\
        MAN: \"ssdp:discover\"\r\n\
        MX: 3\r\n\
        ST: urn:schemas-upnp-org:device:MediaServer:1\r\n\
        \r\n";

    let (method, headers) = parse_ssdp(packet).unwrap();
    assert_eq!(method, "M-SEARCH");
    assert_eq!(
        headers.get("ST").map(|s| s.as_str()),
        Some("urn:schemas-upnp-org:device:MediaServer:1")
    );
}

#[test]
fn test_parse_ssdp_msearch_rootdevice() {
    let packet = b"M-SEARCH * HTTP/1.1\r\n\
        HOST: 239.255.255.250:1900\r\n\
        MAN: \"ssdp:discover\"\r\n\
        MX: 3\r\n\
        ST: upnp:rootdevice\r\n\
        \r\n";

    let (method, headers) = parse_ssdp(packet).unwrap();
    assert_eq!(method, "M-SEARCH");
    assert_eq!(headers.get("ST").map(|s| s.as_str()), Some("upnp:rootdevice"));
}

#[test]
fn test_parse_ssdp_extracts_man_header() {
    let packet = b"M-SEARCH * HTTP/1.1\r\n\
        HOST: 239.255.255.250:1900\r\n\
        MAN: \"ssdp:discover\"\r\n\
        ST: ssdp:all\r\n\
        \r\n";

    let (_, headers) = parse_ssdp(packet).unwrap();
    assert_eq!(headers.get("MAN").map(|s| s.as_str()), Some("\"ssdp:discover\""));
}

#[test]
fn test_parse_ssdp_extracts_host_header() {
    let packet = b"M-SEARCH * HTTP/1.1\r\n\
        HOST: 239.255.255.250:1900\r\n\
        ST: ssdp:all\r\n\
        \r\n";

    let (_, headers) = parse_ssdp(packet).unwrap();
    assert_eq!(headers.get("HOST").map(|s| s.as_str()), Some("239.255.255.250:1900"));
}

#[test]
fn test_parse_ssdp_extracts_mx_header() {
    let packet = b"M-SEARCH * HTTP/1.1\r\n\
        HOST: 239.255.255.250:1900\r\n\
        MX: 5\r\n\
        ST: ssdp:all\r\n\
        \r\n";

    let (_, headers) = parse_ssdp(packet).unwrap();
    assert_eq!(headers.get("MX").map(|s| s.as_str()), Some("5"));
}

#[test]
fn test_parse_ssdp_normalizes_headers_to_uppercase() {
    let packet = b"M-SEARCH * HTTP/1.1\r\n\
        host: 239.255.255.250:1900\r\n\
        man: \"ssdp:discover\"\r\n\
        st: ssdp:all\r\n\
        \r\n";

    let (_, headers) = parse_ssdp(packet).unwrap();
    // Headers should be normalized to uppercase
    assert!(headers.contains_key("HOST"));
    assert!(headers.contains_key("MAN"));
    assert!(headers.contains_key("ST"));
}

#[test]
fn test_parse_ssdp_mixed_case_headers() {
    let packet = b"M-SEARCH * HTTP/1.1\r\n\
        Host: 239.255.255.250:1900\r\n\
        Man: \"ssdp:discover\"\r\n\
        St: ssdp:all\r\n\
        \r\n";

    let (_, headers) = parse_ssdp(packet).unwrap();
    // Headers should be normalized to uppercase
    assert!(headers.contains_key("HOST"));
    assert!(headers.contains_key("MAN"));
    assert!(headers.contains_key("ST"));
}

#[test]
fn test_parse_ssdp_empty_buffer() {
    let packet = b"";
    let result = parse_ssdp(packet);
    assert!(result.is_err());
}

#[test]
fn test_parse_ssdp_garbage_data() {
    let packet = b"not a valid http request at all\x00\xff\xfe";
    let result = parse_ssdp(packet);
    assert!(result.is_err());
}

#[test]
fn test_parse_ssdp_incomplete_request() {
    let packet = b"M-SEARCH * HTTP/1.1\r\n";
    // This should still parse the method even without complete headers
    let result = parse_ssdp(packet);
    // May succeed with just method or fail depending on httparse behavior
    // The important thing is it doesn't panic
    let _ = result;
}

const SEARCH_ALL: &[u8] = b"M-SEARCH * HTTP/1.1\r\n\
    HOST: 239.255.255.250:1900\r\n\
    MAN: \"ssdp:discover\"\r\n\
    MX: 3\r\n\
    ST: ssdp:all\r\n\
    \r\n";

#[test]
fn test_parse_ssdp_empty_buffer_has_no_method() {
    assert_eq!(parse_ssdp(b"").err(), Some(SsdpError::NoSSDPMethod));
}

#[test]
fn test_parse_ssdp_garbage_is_malformed() {
    let packet = b"not a valid http request at all\x00\xff\xfe";
    assert_eq!(parse_ssdp(packet).err(), Some(SsdpError::Malformed));
}

#[test]
fn test_parse_ssdp_incomplete_request_keeps_what_was_read() {
    let (method, headers) = parse_ssdp(b"M-SEARCH * HTTP/1.1\r\nST: ssdp:all\r\nMX").unwrap();
    assert_eq!(method, "M-SEARCH");
    assert_eq!(headers.get("ST").map(|s| s.as_str()), Some("ssdp:all"));
    assert!(!headers.contains_key("MX"));
}

#[test]
fn test_parse_ssdp_ignores_what_follows_the_request() {
    let mut buffer = [0u8; 1024];
    buffer[..SEARCH_ALL.len()].copy_from_slice(SEARCH_ALL);
    let (method, headers) = parse_ssdp(&buffer).unwrap();
    assert_eq!(method, "M-SEARCH");
    assert_eq!(headers.get("ST").map(|s| s.as_str()), Some("ssdp:all"));
}

fn numbered_headers(count: usize) -> Vec<u8> {
    let mut packet = b"M-SEARCH * HTTP/1.1\r\n".to_vec();
    for i in 0..count {
        packet.extend_from_slice(format!("X-H{}: {}\r\n", i, i).as_bytes());
    }
    packet.extend_from_slice(b"\r\n");
    packet
}

#[test]
fn test_parse_ssdp_takes_sixteen_headers() {
    let (_, headers) = parse_ssdp(&numbered_headers(16)).unwrap();
    for i in 0..16 {
        let value = format!("{}", i);
        assert_eq!(headers.get(&format!("X-H{}", i)).map(|s| s.as_str()), Some(value.as_str()));
    }
}

#[test]
fn test_parse_ssdp_refuses_seventeen_headers() {
    assert_eq!(parse_ssdp(&numbered_headers(17)).err(), Some(SsdpError::Malformed));
}

#[test]
fn test_parse_ssdp_later_header_replaces_earlier() {
    let packet = b"M-SEARCH * HTTP/1.1\r\nST: first\r\nst: second\r\n\r\n";
    let (_, headers) = parse_ssdp(packet).unwrap();
    assert_eq!(headers.get("ST").map(|s| s.as_str()), Some("second"));
}

#[test]
fn test_parse_ssdp_value_with_invalid_utf8() {
    let packet = b"M-SEARCH * HTTP/1.1\r\nST: a\xffb\r\n\r\n";
    let (_, headers) = parse_ssdp(packet).unwrap();
    assert_eq!(headers.get("ST").map(|s| s.as_str()), Some("a\u{FFFD}b"));
}

#[test]
fn test_parse_ssdp_names_are_upper_case() {
    let packet = b"M-SEARCH * HTTP/1.1\r\nCache-Control: x\r\nx-mixed-Case_1: y\r\n\r\n";
    let (_, headers) = parse_ssdp(packet).unwrap();
    assert!(headers.contains_key("CACHE-CONTROL"));
    assert!(headers.contains_key("X-MIXED-CASE_1"));
    assert!(!headers.contains_key("Cache-Control"));
    assert!(!headers.contains_key("x-mixed-Case_1"));
}

#[test]
fn test_request_from_stops_at_the_first_empty_name() {
    let slots = vec![
        ("st".to_string(), b"ssdp:all".to_vec()),
        (String::new(), Vec::new()),
        ("mx".to_string(), b"3".to_vec()),
    ];
    let (method, headers) = request_from(Some("M-SEARCH".to_string()), slots).unwrap();
    assert_eq!(method, "M-SEARCH");
    assert_eq!(headers.get("ST").map(|s| s.as_str()), Some("ssdp:all"));
    assert!(!headers.contains_key("MX"));
}

#[test]
fn test_request_from_without_method() {
    let slots = vec![("ST".to_string(), b"ssdp:all".to_vec())];
    assert_eq!(request_from(None, slots).err(), Some(SsdpError::NoSSDPMethod));
}

#[test]
fn test_header_map_insert_and_get() {
    let mut headers = HeaderMap::new();
    assert!(headers.get("A").is_none());
    headers.insert("A".to_string(), "1".to_string());
    headers.insert("B".to_string(), "2".to_string());
    headers.insert("A".to_string(), "3".to_string());
    assert_eq!(headers.get("A").map(|s| s.as_str()), Some("3"));
    assert_eq!(headers.get("B").map(|s| s.as_str()), Some("2"));
    assert!(headers.contains_key("B"));
    assert!(!headers.contains_key("C"));
}

fn search(method: &str, target: Option<&str>) -> Vec<u8> {
    let mut packet = format!("{} * HTTP/1.1\r\nHOST: 239.255.255.250:1900\r\n", method);
    if let Some(target) = target {
        packet.push_str(&format!("ST: {}\r\n", target));
    }
    packet.push_str("\r\n");
    packet.into_bytes()
}

#[test]
fn test_responds_to_the_three_targets() {
    for target in ["ssdp:all", "upnp:rootdevice", "urn:schemas-upnp-org:device:MediaServer:1"] {
        assert_eq!(handle_datagram(&search("M-SEARCH", Some(target))), Verdict::Respond);
    }
}

#[test]
fn test_ignores_other_targets() {
    for target in [
        "urn:other",
        "urn:schemas-upnp-org:device:MediaRenderer:1",
        "SSDP:ALL",
        "ssdp:all, upnp:rootdevice",
        "",
    ] {
        assert_eq!(handle_datagram(&search("M-SEARCH", Some(target))), Verdict::Ignore);
    }
}

#[test]
fn test_target_is_taken_without_the_space_around_it() {
    assert_eq!(handle_datagram(&search("M-SEARCH", Some("  ssdp:all \t"))), Verdict::Respond);
}

#[test]
fn test_ignores_other_methods_and_missing_target() {
    assert_eq!(handle_datagram(&search("NOTIFY", Some("ssdp:all"))), Verdict::Ignore);
    assert_eq!(handle_datagram(&search("m-search", Some("ssdp:all"))), Verdict::Ignore);
    assert_eq!(handle_datagram(&search("M-SEARCH", None)), Verdict::Ignore);
}

#[test]
fn test_rejects_what_is_no_request() {
    assert_eq!(handle_datagram(b"\x00\x01\x02"), Verdict::Reject(SsdpError::Malformed));
    assert_eq!(handle_datagram(b""), Verdict::Reject(SsdpError::NoSSDPMethod));
}

#[test]
fn test_should_respond_reads_the_st_header() {
    let mut headers = HeaderMap::new();
    assert!(!should_respond("M-SEARCH", &headers));
    headers.insert("ST".to_string(), "upnp:rootdevice".to_string());
    assert!(should_respond("M-SEARCH", &headers));
    assert!(!should_respond("GET", &headers));
}

#[test]
fn test_error_messages() {
    assert_eq!(SsdpError::Malformed.message(), "Failed to parse packet as SSDP.");
    assert_eq!(SsdpError::NoSSDPMethod.message(), "No SSDP method in packet.");
}

#[test]
fn test_judge() {
    let mut headers = HeaderMap::new();
    headers.insert("ST".to_string(), "ssdp:all".to_string());
    assert_eq!(judge(&Ok(("M-SEARCH".to_string(), headers))), Verdict::Respond);
    let mut headers = HeaderMap::new();
    headers.insert("ST".to_string(), "ssdp:all".to_string());
    assert_eq!(judge(&Ok(("NOTIFY".to_string(), headers))), Verdict::Ignore);
    assert_eq!(judge(&Ok(("M-SEARCH".to_string(), HeaderMap::new()))), Verdict::Ignore);
    assert_eq!(judge(&Err(SsdpError::Malformed)), Verdict::Reject(SsdpError::Malformed));
    assert_eq!(judge(&Err(SsdpError::NoSSDPMethod)), Verdict::Reject(SsdpError::NoSSDPMethod));
}

#[test]
fn test_header_limit() {
    assert_eq!(MAX_HEADERS, 16);
}
