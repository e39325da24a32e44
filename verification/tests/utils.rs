//! What is known of the server, and the packets made of it.

use dlnaproxy::ssdp::packet::SSDPPacket;
use dlnaproxy::ssdp::utils::{server_name, EndpointInfo, InteractiveSSDP};

fn info() -> EndpointInfo {
    EndpointInfo::new(
        "urn:schemas-upnp-org:device:MediaServer:1".to_string(),
        "uuid:4d696e69-444c-164e-9d41-ecf4bb8d1234".to_string(),
        Some(b"Linux/5.10 DLNADOC/1.50 UPnP/1.0 MiniDLNA/1.3.0"),
    )
}

fn helper() -> InteractiveSSDP {
    InteractiveSSDP::new(reqwest::Client::new(), "http://192.168.1.2:9000/rootDesc.xml", 1790)
}

#[test]
fn test_endpoint_info_keeps_the_server_header() {
    let info = info();
    assert_eq!(info.device_type, "urn:schemas-upnp-org:device:MediaServer:1");
    assert_eq!(info.unique_device_name, "uuid:4d696e69-444c-164e-9d41-ecf4bb8d1234");
    assert_eq!(info.server, "Linux/5.10 DLNADOC/1.50 UPnP/1.0 MiniDLNA/1.3.0");
}

#[test]
fn test_endpoint_info_without_server_header() {
    let info = EndpointInfo::new("t".to_string(), "u".to_string(), None);
    assert_eq!(info.server, "DLNAProxy/1.0");
}

#[test]
fn test_endpoint_info_with_a_garbled_server_header() {
    let info = EndpointInfo::new("t".to_string(), "u".to_string(), Some(b"Mini\xffDLNA"));
    assert_eq!(info.server, "Mini\u{FFFD}DLNA");
    let info = EndpointInfo::new("t".to_string(), "u".to_string(), Some(b""));
    assert_eq!(info.server, "");
}

#[test]
fn test_server_name() {
    assert_eq!(server_name(None), "DLNAProxy/1.0");
    assert_eq!(server_name(Some("X/1".to_string())), "X/1");
    assert_eq!(server_name(Some(String::new())), "");
}

#[test]
fn test_helper_keeps_its_settings() {
    let helper = helper();
    assert_eq!(helper.remote_desc_url(), "http://192.168.1.2:9000/rootDesc.xml");
    assert_eq!(helper.cache_max_age(), 1790);
    let _client: &reqwest::Client = helper.http_client();
}

#[test]
fn test_alive_packet() {
    match helper().alive(info()) {
        SSDPPacket::Alive { desc_url, server_ua, unique_device_name, device_type, cache_max_age } => {
            assert_eq!(desc_url, "http://192.168.1.2:9000/rootDesc.xml");
            assert_eq!(server_ua, "Linux/5.10 DLNADOC/1.50 UPnP/1.0 MiniDLNA/1.3.0");
            assert_eq!(unique_device_name, "uuid:4d696e69-444c-164e-9d41-ecf4bb8d1234");
            assert_eq!(device_type, "urn:schemas-upnp-org:device:MediaServer:1");
            assert_eq!(cache_max_age, 1790);
        }
        _ => panic!("not an announcement of presence"),
    }
}

#[test]
fn test_response_packet() {
    match helper().response(info()) {
        SSDPPacket::Response {
            desc_url,
            server_ua,
            unique_device_name,
            device_type,
            cache_max_age,
        } => {
            assert_eq!(desc_url, "http://192.168.1.2:9000/rootDesc.xml");
            assert_eq!(server_ua, "Linux/5.10 DLNADOC/1.50 UPnP/1.0 MiniDLNA/1.3.0");
            assert_eq!(unique_device_name, "uuid:4d696e69-444c-164e-9d41-ecf4bb8d1234");
            assert_eq!(device_type, "urn:schemas-upnp-org:device:MediaServer:1");
            assert_eq!(cache_max_age, 1790);
        }
        _ => panic!("not an answer"),
    }
}

#[test]
fn test_byebye_packet() {
    match helper().byebye(info()) {
        SSDPPacket::ByeBye { unique_device_name, device_type } => {
            assert_eq!(unique_device_name, "uuid:4d696e69-444c-164e-9d41-ecf4bb8d1234");
            assert_eq!(device_type, "urn:schemas-upnp-org:device:MediaServer:1");
        }
        _ => panic!("not an announcement of absence"),
    }
}

#[test]
fn test_packets_on_the_wire() {
    let wire = helper().byebye(info()).to_string().unwrap();
    assert_eq!(
        wire,
        "NOTIFY * HTTP/1.1\r\nHOST:239.255.255.250:1900\r\n\
         NT:urn:schemas-upnp-org:device:MediaServer:1\r\n\
         USN:uuid:4d696e69-444c-164e-9d41-ecf4bb8d1234::urn:schemas-upnp-org:device:MediaServer:1\r\n\
         NTS:ssdp:byebye\r\n\r\n"
    );
    let wire = helper().alive(info()).to_string().unwrap();
    assert!(wire.contains("LOCATION:http://192.168.1.2:9000/rootDesc.xml\r\n"));
    assert!(wire.contains("CACHE-CONTROL:max-age=1790\r\n"));
}
