//! Presence announcement and URL-rewriting proxy logic for a remote DLNA
//! media server, with machine-checked contracts.
//!
//! The library does no input or output. It says what is to be sent and
//! what is to be written, and a program around it does the sending and the
//! writing:
//!
//! - [`ssdp::packet`] renders the three SSDP packets, byte for byte.
//! - [`ssdp::listener`] reads datagrams as requests and decides which of
//!   them are answered.
//! - [`ssdp::engine`] is the life of the announcer as a state machine.
//! - [`ssdp::utils`] makes the packets of what is known of the server.
//! - [`tcp_proxy`] is the handling of the origin's responses as a state
//!   machine: bodies of text are read whole and sent on with the proxy's
//!   address in place of the origin's, all other bodies are passed through.
//! - [`chunked`] and [`headers`] hold what the proxy knows of HTTP: the
//!   chunked coding, and the header lines that tell how a body is framed.
//! - [`stream`], [`text`], [`digits`] and [`lossy`] are what these are
//!   built on: a stream in memory, operations on text, numerals, and text
//!   out of bytes.
//! - [`config`] completes the settings of the program.

pub mod chunked;
pub mod config;
pub mod digits;
pub mod headers;
pub mod lossy;
pub mod ssdp;
pub mod stream;
pub mod tcp_proxy;
pub mod text;
