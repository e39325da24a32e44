//! What is known of the remote server, and the packets that are made of it.

use crate::lossy::{from_utf8_lossy, utf8_lossy};
use crate::ssdp::packet::SSDPPacket;
use vstd::prelude::*;

verus! {

/// Makes `reqwest::Client` known as a type. Nothing is said of its values:
/// a client is only kept and handed out again.
#[verifier::external_type_specification]
#[verifier::external_body]
pub struct ExClient(reqwest::Client);

/// What the remote server says of itself.
pub struct EndpointInfo {
    pub device_type: String,
    pub unique_device_name: String,
    pub server: String,
}

/// The product name that is announced for a server that does not give one.
pub open spec fn default_server() -> Seq<char> {
    "DLNAProxy/1.0"@
}

/// The product name to announce, given the `Server` header of the remote
/// server's answer as text, where it sent one.
pub fn server_name(header: Option<String>) -> (name: String)
    ensures
        name@ == match header {
            Some(text) => text@,
            None => default_server(),
        },
{
    match header {
        Some(text) => text,
        None => "DLNAProxy/1.0".to_owned(),
    }
}

impl EndpointInfo {
    /// What is known of a server from its description and from the `Server`
    /// header of the answer that carried it, where there was one.
    pub fn new(
        device_type: String,
        unique_device_name: String,
        server_header: Option<&[u8]>,
    ) -> (info: EndpointInfo)
        ensures
            info.device_type == device_type,
            info.unique_device_name == unique_device_name,
            info.server@ == match server_header {
                Some(bytes) => utf8_lossy(bytes@),
                None => default_server(),
            },
    {
        let header = match server_header {
            Some(bytes) => Some(from_utf8_lossy(bytes)),
            None => None,
        };
        EndpointInfo { device_type, unique_device_name, server: server_name(header) }
    }
}

/// The maker of the packets for one remote server.
pub struct InteractiveSSDP {
    http_client: reqwest::Client,
    remote_desc_url: String,
    cache_max_age: usize,
}

impl InteractiveSSDP {
    /// The address of the server's description, which every announcement
    /// carries as its location.
    pub closed spec fn location(self) -> Seq<char> {
        self.remote_desc_url@
    }

    /// The time, in seconds, for which listeners keep an announcement.
    pub closed spec fn max_age(self) -> usize {
        self.cache_max_age
    }

    /// What the description is fetched with.
    pub closed spec fn client(self) -> reqwest::Client {
        self.http_client
    }

    /// A maker of packets for the server whose description is at `url`.
    /// `client` is what the description is fetched with.
    pub fn new(client: reqwest::Client, url: &str, cache_max_age: usize) -> (helper:
        InteractiveSSDP)
        ensures
            helper.client() == client,
            helper.location() == url@,
            helper.max_age() == cache_max_age,
    {
        InteractiveSSDP { http_client: client, remote_desc_url: url.to_owned(), cache_max_age }
    }

    /// What the description is fetched with.
    pub fn http_client(&self) -> (client: &reqwest::Client)
        ensures
            *client == self.client(),
    {
        &self.http_client
    }

    /// The time, in seconds, for which listeners keep an announcement.
    pub fn cache_max_age(&self) -> (age: usize)
        ensures
            age == self.max_age(),
    {
        self.cache_max_age
    }

    /// The address of the server's description.
    pub fn remote_desc_url(&self) -> (url: &str)
        ensures
            url@ == self.location(),
    {
        self.remote_desc_url.as_str()
    }

    /// The announcement of presence for a server of which `info` is known.
    pub fn alive(&self, info: EndpointInfo) -> (packet: SSDPPacket)
        ensures
            packet matches SSDPPacket::Alive {
                desc_url,
                server_ua,
                unique_device_name,
                device_type,
                cache_max_age,
            } && desc_url@ == self.location() && server_ua == info.server && unique_device_name
                == info.unique_device_name && device_type == info.device_type && cache_max_age
                == self.max_age(),
    {
        SSDPPacket::Alive {
            desc_url: self.remote_desc_url.clone(),
            server_ua: info.server,
            unique_device_name: info.unique_device_name,
            device_type: info.device_type,
            cache_max_age: self.cache_max_age,
        }
    }

    /// The answer to a search for a server of which `info` is known.
    pub fn response(&self, info: EndpointInfo) -> (packet: SSDPPacket)
        ensures
            packet matches SSDPPacket::Response {
                desc_url,
                server_ua,
                unique_device_name,
                device_type,
                cache_max_age,
            } && desc_url@ == self.location() && server_ua == info.server && unique_device_name
                == info.unique_device_name && device_type == info.device_type && cache_max_age
                == self.max_age(),
    {
        SSDPPacket::Response {
            desc_url: self.remote_desc_url.clone(),
            server_ua: info.server,
            unique_device_name: info.unique_device_name,
            device_type: info.device_type,
            cache_max_age: self.cache_max_age,
        }
    }

    /// The announcement of absence for a server of which `info` is known.
    pub fn byebye(&self, info: EndpointInfo) -> (packet: SSDPPacket)
        ensures
            packet matches SSDPPacket::ByeBye { unique_device_name, device_type }
                && unique_device_name == info.unique_device_name && device_type
                == info.device_type,
    {
        SSDPPacket::ByeBye {
            unique_device_name: info.unique_device_name,
            device_type: info.device_type,
        }
    }
}

} // verus!
