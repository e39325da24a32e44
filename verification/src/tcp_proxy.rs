//! The proxy's handling of the origin's responses: which bodies are
//! rewritten, what is written in their place, and the state machine that
//! turns what is read from the origin into what is written to the client.

use crate::chunked::{
    chunked_encoding, relay_chunk, relay_rank, relay_step, relay_wanted, relay_wants,
    write_chunked_body, ChunkPhase, ChunkedBody, ChunkedProgress, CollectStep, Collecting,
    ProxyError, RelayStep, CARRIAGE_RETURN,
};
use crate::digits::{decimal, format_decimal};
use crate::headers::{
    declares_chunked, inspect_chunked, inspect_length, length_after, needs_rewrite,
    should_rewrite_content, status_line, status_text, update_content_length, updated_headers,
};
use crate::lossy::{from_utf8_lossy, utf8_lossy};
use crate::stream::{
    left_of, lemma_segment_len_bounds, push_bytes, relay_limit, relay_read, still_to_come,
    supplied, ByteReader, Wanted, LINE_FEED,
};
use crate::text::{chars_of, push_all, replace, replace_all, string_of};
use std::time::Duration;
use vstd::prelude::*;
use vstd::utf8::encode_utf8;

pub mod laws;

verus! {

/// The longest body, in bytes, that is held in memory to be rewritten.
pub const MAX_REWRITABLE_BODY_SIZE: usize = 10 * 1024 * 1024;

/// The most connections that the proxy serves at a time.
pub const MAX_CONCURRENT_CONNECTIONS: usize = 100;

/// The address prefix `http://<host>:<port>`.
pub open spec fn url_base(host: Seq<char>, port: u16) -> Seq<char> {
    "http://"@ + host + ":"@ + decimal(port as nat)
}

/// The settings of one proxy: the two timeouts, and the address prefixes of
/// the origin and of the proxy itself.
pub struct TCPProxy {
    connect_timeout: Duration,
    stream_timeout: Duration,
    origin_url_base: String,
    proxy_url_base: String,
}

fn make_url_base(host: &str, port: u16) -> (base: String)
    ensures
        base@ == url_base(host@, port),
{
    let mut out = chars_of("http://");
    let host_chars = chars_of(host);
    push_all(&mut out, host_chars.as_slice());
    out.push(':');
    proof {
        reveal_strlit(":");
        assert(out@ =~= "http://"@ + host@ + ":"@);
    }
    let digits = format_decimal(port as usize);
    push_all(&mut out, digits.as_slice());
    string_of(out.as_slice())
}

impl TCPProxy {
    /// The text that is looked for in bodies.
    pub closed spec fn origin_base(self) -> Seq<char> {
        self.origin_url_base@
    }

    /// The text that is put in its place.
    pub closed spec fn proxy_base(self) -> Seq<char> {
        self.proxy_url_base@
    }

    /// How long a connection to the origin may take.
    pub closed spec fn connect_limit(self) -> Duration {
        self.connect_timeout
    }

    /// How long a stream may stay silent.
    pub closed spec fn stream_limit(self) -> Duration {
        self.stream_timeout
    }

    /// A proxy for the origin at `origin_host:origin_port` that is itself
    /// reached at `proxy_host:proxy_port`.
    pub fn new(
        connect_timeout: Duration,
        stream_timeout: Duration,
        origin_host: &str,
        origin_port: u16,
        proxy_host: &str,
        proxy_port: u16,
    ) -> (proxy: TCPProxy)
        ensures
            proxy.origin_base() == url_base(origin_host@, origin_port),
            proxy.proxy_base() == url_base(proxy_host@, proxy_port),
            proxy.connect_limit() == connect_timeout,
            proxy.stream_limit() == stream_timeout,
    {
        TCPProxy {
            connect_timeout,
            stream_timeout,
            origin_url_base: make_url_base(origin_host, origin_port),
            proxy_url_base: make_url_base(proxy_host, proxy_port),
        }
    }

    /// How long a connection to the origin may take.
    pub fn connect_timeout(&self) -> (limit: Duration)
        ensures
            limit == self.connect_limit(),
    {
        self.connect_timeout
    }

    /// How long a stream may stay silent.
    pub fn stream_timeout(&self) -> (limit: Duration)
        ensures
            limit == self.stream_limit(),
    {
        self.stream_timeout
    }

    /// The address prefix of the origin, which is looked for in bodies.
    pub fn origin_url_base(&self) -> (base: &str)
        ensures
            base@ == self.origin_base(),
    {
        self.origin_url_base.as_str()
    }

    /// The address prefix of the proxy, which is put in its place.
    pub fn proxy_url_base(&self) -> (base: &str)
        ensures
            base@ == self.proxy_base(),
    {
        self.proxy_url_base.as_str()
    }
}

/// Replaces every occurrence of `origin` in `body` by `proxy`.
pub fn rewrite_urls(body: &str, origin: &str, proxy: &str) -> (rewritten: String)
    ensures
        rewritten@ == replace_all(body@, origin@, proxy@),
{
    let text = chars_of(body);
    let from = chars_of(origin);
    let to = chars_of(proxy);
    let out = replace(text.as_slice(), from.as_slice(), to.as_slice());
    string_of(out.as_slice())
}

/// How the body that follows a header block is framed and treated.
#[derive(Debug, Clone, Copy, PartialEq, Eq, Structural)]
pub enum Framing {
    /// Neither a length nor the chunked coding: the body is everything up to
    /// the end of the stream and is passed through.
    UntilClose,
    /// A body of the given length that is passed through.
    RelayFixed(usize),
    /// A chunked body that is passed through, chunk by chunk.
    RelayChunked,
    /// A body of the given length that is read whole and rewritten.
    RewriteFixed(usize),
    /// A chunked body that is read whole and rewritten.
    RewriteChunked,
}

/// The framing that follows from what the header block declares.
///
/// A body is rewritten where its type is rewritable and no length above
/// [`MAX_REWRITABLE_BODY_SIZE`] is declared; every other body is passed
/// through. The chunked coding goes before a declared length.
pub open spec fn framing(length: Option<usize>, chunked: bool, rewritable: bool) -> Framing {
    match length {
        None => if !chunked {
            Framing::UntilClose
        } else if rewritable {
            Framing::RewriteChunked
        } else {
            Framing::RelayChunked
        },
        Some(n) => if rewritable && n <= MAX_REWRITABLE_BODY_SIZE {
            if chunked {
                Framing::RewriteChunked
            } else {
                Framing::RewriteFixed(n)
            }
        } else if chunked {
            Framing::RelayChunked
        } else {
            Framing::RelayFixed(n)
        },
    }
}

/// Decides how a body is framed and treated.
pub fn plan_framing(length: Option<usize>, chunked: bool, rewritable: bool) -> (plan: Framing)
    ensures
        plan == framing(length, chunked, rewritable),
{
    match length {
        None => {
            if !chunked {
                Framing::UntilClose
            } else if rewritable {
                Framing::RewriteChunked
            } else {
                Framing::RelayChunked
            }
        },
        Some(n) => {
            if rewritable && n <= MAX_REWRITABLE_BODY_SIZE {
                if chunked {
                    Framing::RewriteChunked
                } else {
                    Framing::RewriteFixed(n)
                }
            } else if chunked {
                Framing::RelayChunked
            } else {
                Framing::RelayFixed(n)
            }
        },
    }
}

/// The body as it is sent on: the text with every occurrence of `origin`
/// replaced by `proxy`, in UTF-8.
pub open spec fn rewritten_body(text: Seq<char>, origin: Seq<char>, proxy: Seq<char>) -> Seq<u8> {
    encode_utf8(replace_all(text, origin, proxy))
}

/// The header block as it is sent on before a rewritten body of
/// `new_length` bytes that had `old_length` bytes before: where a length
/// was declared and the two differ, every `Content-Length` line carries the
/// new length; otherwise the block stays as it is.
pub open spec fn rewritten_headers(
    headers: Seq<char>,
    length_known: bool,
    old_length: nat,
    new_length: nat,
) -> Seq<char> {
    if length_known && new_length != old_length {
        updated_headers(headers, new_length)
    } else {
        headers
    }
}

/// What is written to the client for a response whose body is rewritten:
/// the header block, then the new body, as a single chunk where the
/// response is chunked.
pub open spec fn rewritten_response(
    headers: Seq<char>,
    length_known: bool,
    chunked: bool,
    old_length: nat,
    text: Seq<char>,
    origin: Seq<char>,
    proxy: Seq<char>,
) -> Seq<u8> {
    let body = rewritten_body(text, origin, proxy);
    encode_utf8(rewritten_headers(headers, length_known, old_length, body.len())) + if chunked {
        chunked_encoding(body)
    } else {
        body
    }
}

/// Builds what is written to the client for a response whose body is
/// rewritten. `headers` is the header block and `text` the body, both as
/// text; `old_length` is the number of bytes that the body had on arrival.
pub fn rewrite_response(
    proxy: &TCPProxy,
    headers: &str,
    length_known: bool,
    chunked: bool,
    old_length: usize,
    text: &str,
) -> (out: Vec<u8>)
    ensures
        out@ == rewritten_response(
            headers@,
            length_known,
            chunked,
            old_length as nat,
            text@,
            proxy.origin_base(),
            proxy.proxy_base(),
        ),
{
    let rewritten = rewrite_urls(text, proxy.origin_url_base(), proxy.proxy_url_base());
    let body = rewritten.as_str().as_bytes();
    let mut out: Vec<u8> = Vec::new();
    if length_known && body.len() != old_length {
        let updated = update_content_length(headers, body.len());
        push_bytes(&mut out, updated.as_str().as_bytes());
    } else {
        push_bytes(&mut out, headers.as_bytes());
    }
    if chunked {
        write_chunked_body(&mut out, body);
    } else {
        push_bytes(&mut out, body);
    }
    out
}

/// Where the handling of the origin's responses stands.
pub enum Rewriting {
    /// In a header block: the block's bytes so far, the body length that
    /// its lines have declared, and whether one declared the chunked coding.
    Headers { raw: Seq<u8>, length: Option<usize>, chunked: bool },
    /// In a body that is passed through, with so many bytes to come.
    RelayFixed { remaining: usize },
    /// In a chunked body that is passed through.
    RelayChunked { phase: ChunkPhase },
    /// Before a body of the given length that is rewritten.
    BodyFixed { headers: Seq<char>, size: usize },
    /// In a chunked body that is rewritten.
    BodyChunked { headers: Seq<char>, length_known: bool, decoder: Collecting },
}

/// What follows a step.
pub enum After {
    /// The handling goes on in the given state.
    Continue(Rewriting),
    /// The rest of the stream is passed through to its end.
    StreamRest,
    /// The stream has ended between two responses.
    Done,
    /// The connection is given up.
    Failed(ProxyError),
}

/// A step: what is written to the client, whether the client's stream is
/// flushed after it, the status line where a header block was completed,
/// and what follows.
pub struct Step {
    pub output: Seq<u8>,
    pub flush: bool,
    pub status: Option<Seq<char>>,
    pub after: After,
}

/// Whether a line ends a header block: `\r\n` or `\n`.
pub open spec fn ends_headers(line: Seq<u8>) -> bool {
    line == seq![CARRIAGE_RETURN, LINE_FEED] || line == seq![LINE_FEED]
}

impl Step {
    /// A step that only leads on.
    pub open spec fn quiet(after: After) -> Step {
        Step { output: Seq::empty(), flush: false, status: None, after }
    }

    /// A step that passes `output` through and leads on.
    pub open spec fn relay(output: Seq<u8>, after: After) -> Step {
        Step { output, flush: false, status: None, after }
    }

    /// A step that ends a response with `output`: the client's stream is
    /// flushed, and the next header block is awaited.
    pub open spec fn finish(output: Seq<u8>) -> Step {
        Step { output, flush: true, status: None, after: After::Continue(Rewriting::start()) }
    }
}

impl Rewriting {
    /// The state before a response.
    pub open spec fn start() -> Rewriting {
        Rewriting::Headers { raw: Seq::empty(), length: None, chunked: false }
    }

    /// What is read next.
    pub open spec fn wanted(self) -> Wanted {
        match self {
            Rewriting::Headers { .. } => Wanted::Line,
            Rewriting::RelayFixed { remaining } => Wanted::UpTo(relay_read(remaining)),
            Rewriting::RelayChunked { phase } => relay_wanted(phase),
            Rewriting::BodyFixed { size, .. } => Wanted::Exact(size),
            Rewriting::BodyChunked { decoder, .. } => decoder.wanted(),
        }
    }

    /// The step at the end of a header block whose bytes are `raw`.
    ///
    /// The block is passed on as it came, unless the body is to be
    /// rewritten: then nothing is written until the body has been read.
    pub open spec fn headers_complete(raw: Seq<u8>, length: Option<usize>, chunked: bool) -> Step {
        let headers = utf8_lossy(raw);
        let status = Some(status_text(headers));
        match framing(length, chunked, needs_rewrite(headers)) {
            Framing::UntilClose => Step {
                output: raw,
                flush: true,
                status,
                after: After::StreamRest,
            },
            Framing::RelayFixed(n) => if n == 0 {
                Step { status, ..Step::finish(raw) }
            } else {
                Step {
                    status,
                    ..Step::relay(raw, After::Continue(Rewriting::RelayFixed { remaining: n }))
                }
            },
            Framing::RelayChunked => Step {
                status,
                ..Step::relay(
                    raw,
                    After::Continue(Rewriting::RelayChunked { phase: ChunkPhase::Size }),
                )
            },
            Framing::RewriteFixed(n) => Step {
                status,
                ..Step::quiet(After::Continue(Rewriting::BodyFixed { headers, size: n }))
            },
            Framing::RewriteChunked => Step {
                status,
                ..Step::quiet(
                    After::Continue(
                        Rewriting::BodyChunked {
                            headers,
                            length_known: length is Some,
                            decoder: Collecting::start(MAX_REWRITABLE_BODY_SIZE as nat),
                        },
                    ),
                )
            },
        }
    }

    /// The step that is taken when `data` has been read as [`Self::wanted`]
    /// asked, for a proxy that puts `proxy` in place of `origin`.
    pub open spec fn step(self, origin: Seq<char>, proxy: Seq<char>, data: Seq<u8>) -> Step {
        match self {
            Rewriting::Headers { raw, length, chunked } => if data.len() == 0 {
                Step::quiet(After::Done)
            } else {
                let line = utf8_lossy(data);
                let length = length_after(length, line);
                let chunked = chunked || declares_chunked(line);
                if ends_headers(data) {
                    Rewriting::headers_complete(raw + data, length, chunked)
                } else {
                    Step::quiet(
                        After::Continue(Rewriting::Headers { raw: raw + data, length, chunked }),
                    )
                }
            },
            Rewriting::RelayFixed { remaining } => {
                let left = still_to_come(remaining, data.len());
                if data.len() == 0 || left == 0 {
                    Step::finish(data)
                } else {
                    Step::relay(data, After::Continue(Rewriting::RelayFixed { remaining: left }))
                }
            },
            Rewriting::RelayChunked { phase } => match relay_step(phase, data) {
                RelayStep::Continue(next) => Step::relay(
                    data,
                    After::Continue(Rewriting::RelayChunked { phase: next }),
                ),
                RelayStep::Complete => Step::finish(data),
                RelayStep::Failed(e) => Step::relay(data, After::Failed(e)),
            },
            Rewriting::BodyFixed { headers, size } => if data.len() == size {
                Step::finish(
                    rewritten_response(
                        headers,
                        true,
                        false,
                        data.len(),
                        utf8_lossy(data),
                        origin,
                        proxy,
                    ),
                )
            } else {
                Step::quiet(After::Failed(ProxyError::UnexpectedEof))
            },
            Rewriting::BodyChunked { headers, length_known, decoder } => match decoder.step(data) {
                CollectStep::Continue(next) => Step::quiet(
                    After::Continue(
                        Rewriting::BodyChunked { headers, length_known, decoder: next },
                    ),
                ),
                CollectStep::Failed(e) => Step::quiet(After::Failed(e)),
                CollectStep::Complete(body) => Step::finish(
                    rewritten_response(
                        headers,
                        length_known,
                        true,
                        body.len(),
                        utf8_lossy(body),
                        origin,
                        proxy,
                    ),
                ),
            },
        }
    }
}

enum State {
    Headers { raw: Vec<u8>, length: Option<usize>, chunked: bool },
    RelayFixed { remaining: usize },
    RelayChunked { phase: ChunkPhase },
    BodyFixed { headers: String, size: usize },
    BodyChunked { headers: String, length_known: bool, decoder: ChunkedBody },
}

/// The handling of the origin's responses on one connection, as a machine
/// that is told what was read and answers what to write and what to read
/// next. It performs no input or output itself.
pub struct Rewriter {
    state: State,
}

/// What follows a step of a [`Rewriter`].
pub enum Next {
    /// Read what the machine wants and hand it to the next step.
    Continue(Rewriter),
    /// Pass the rest of the origin's stream through to its end.
    StreamRest,
    /// The origin's stream has ended; close the connection.
    Done,
    /// Give the connection up.
    Failed(ProxyError),
}

/// The outcome of a step of a [`Rewriter`].
pub struct Transition {
    /// What is to be written to the client.
    pub output: Vec<u8>,
    /// Whether the client's stream is to be flushed after it.
    pub flush: bool,
    /// The status line to log, where a header block was completed.
    pub status: Option<String>,
    /// What follows.
    pub next: Next,
}

impl Next {
    /// What follows, with the machine taken as its state.
    pub open spec fn view(self) -> After {
        match self {
            Next::Continue(machine) => After::Continue(machine@),
            Next::StreamRest => After::StreamRest,
            Next::Done => After::Done,
            Next::Failed(e) => After::Failed(e),
        }
    }
}

impl Transition {
    /// The step that the outcome stands for.
    pub open spec fn view(self) -> Step {
        Step {
            output: self.output@,
            flush: self.flush,
            status: match self.status {
                Some(line) => Some(line@),
                None => None,
            },
            after: self.next@,
        }
    }
}

fn quiet(next: Next) -> (t: Transition)
    ensures
        t@ == Step::quiet(next@),
{
    Transition { output: Vec::new(), flush: false, status: None, next }
}

fn relay(data: &[u8], next: Next) -> (t: Transition)
    ensures
        t@ == Step::relay(data@, next@),
{
    Transition { output: vstd::slice::slice_to_vec(data), flush: false, status: None, next }
}

fn finish(output: Vec<u8>) -> (t: Transition)
    ensures
        t@ == Step::finish(output@),
{
    Transition { output, flush: true, status: None, next: Next::Continue(Rewriter::new()) }
}

/// Whether a line ends a header block.
pub fn is_end_of_headers(line: &[u8]) -> (b: bool)
    ensures
        b == ends_headers(line@),
{
    if line.len() == 1 {
        let b = line[0] == LINE_FEED;
        assert(b == (line@ =~= seq![LINE_FEED]));
        b
    } else if line.len() == 2 {
        let b = line[0] == CARRIAGE_RETURN && line[1] == LINE_FEED;
        assert(b == (line@ =~= seq![CARRIAGE_RETURN, LINE_FEED]));
        b
    } else {
        false
    }
}

impl Rewriter {
    /// The state of the machine.
    pub closed spec fn view(self) -> Rewriting {
        match self.state {
            State::Headers { raw, length, chunked } => Rewriting::Headers {
                raw: raw@,
                length,
                chunked,
            },
            State::RelayFixed { remaining } => Rewriting::RelayFixed { remaining },
            State::RelayChunked { phase } => Rewriting::RelayChunked { phase },
            State::BodyFixed { headers, size } => Rewriting::BodyFixed { headers: headers@, size },
            State::BodyChunked { headers, length_known, decoder } => Rewriting::BodyChunked {
                headers: headers@,
                length_known,
                decoder: decoder@,
            },
        }
    }

    /// A machine before the first response.
    pub fn new() -> (machine: Rewriter)
        ensures
            machine@ == Rewriting::start(),
    {
        Rewriter { state: State::Headers { raw: Vec::new(), length: None, chunked: false } }
    }

    /// What is to be read from the origin and handed to [`Rewriter::step`].
    pub fn wanted(&self) -> (w: Wanted)
        ensures
            w == self@.wanted(),
    {
        match &self.state {
            State::Headers { .. } => Wanted::Line,
            State::RelayFixed { remaining } => Wanted::UpTo(relay_limit(*remaining)),
            State::RelayChunked { phase } => relay_wants(*phase),
            State::BodyFixed { size, .. } => Wanted::Exact(*size),
            State::BodyChunked { decoder, .. } => decoder.wanted(),
        }
    }

    fn headers_complete(raw: Vec<u8>, length: Option<usize>, chunked: bool) -> (t: Transition)
        ensures
            t@ == Rewriting::headers_complete(raw@, length, chunked),
    {
        let headers = from_utf8_lossy(raw.as_slice());
        let status = Some(status_line(headers.as_str()));
        let rewritable = should_rewrite_content(headers.as_str());
        match plan_framing(length, chunked, rewritable) {
            Framing::UntilClose => Transition {
                output: raw,
                flush: true,
                status,
                next: Next::StreamRest,
            },
            Framing::RelayFixed(n) => {
                if n == 0 {
                    Transition {
                        output: raw,
                        flush: true,
                        status,
                        next: Next::Continue(Rewriter::new()),
                    }
                } else {
                    Transition {
                        output: raw,
                        flush: false,
                        status,
                        next: Next::Continue(
                            Rewriter { state: State::RelayFixed { remaining: n } },
                        ),
                    }
                }
            },
            Framing::RelayChunked => Transition {
                output: raw,
                flush: false,
                status,
                next: Next::Continue(
                    Rewriter { state: State::RelayChunked { phase: ChunkPhase::Size } },
                ),
            },
            Framing::RewriteFixed(n) => Transition {
                output: Vec::new(),
                flush: false,
                status,
                next: Next::Continue(Rewriter { state: State::BodyFixed { headers, size: n } }),
            },
            Framing::RewriteChunked => Transition {
                output: Vec::new(),
                flush: false,
                status,
                next: Next::Continue(
                    Rewriter {
                        state: State::BodyChunked {
                            headers,
                            length_known: length.is_some(),
                            decoder: ChunkedBody::new(MAX_REWRITABLE_BODY_SIZE),
                        },
                    },
                ),
            },
        }
    }

    /// Takes the step that `data` calls for, where `data` is what was read
    /// from the origin as [`Rewriter::wanted`] asked.
    pub fn step(self, proxy: &TCPProxy, data: &[u8]) -> (t: Transition)
        ensures
            t@ == self@.step(proxy.origin_base(), proxy.proxy_base(), data@),
    {
        match self.state {
            State::Headers { raw, length, chunked } => {
                if data.len() == 0 {
                    return quiet(Next::Done);
                }
                let line = from_utf8_lossy(data);
                let length = inspect_length(length, line.as_str());
                let declared = inspect_chunked(line.as_str());
                let chunked = chunked || declared;
                let mut raw = raw;
                push_bytes(&mut raw, data);
                if is_end_of_headers(data) {
                    Rewriter::headers_complete(raw, length, chunked)
                } else {
                    quiet(
                        Next::Continue(Rewriter { state: State::Headers { raw, length, chunked } }),
                    )
                }
            },
            State::RelayFixed { remaining } => {
                let left = left_of(remaining, data.len());
                if data.len() == 0 || left == 0 {
                    finish(vstd::slice::slice_to_vec(data))
                } else {
                    relay(
                        data,
                        Next::Continue(Rewriter { state: State::RelayFixed { remaining: left } }),
                    )
                }
            },
            State::RelayChunked { phase } => {
                match relay_chunk(phase, data) {
                    RelayStep::Continue(next) => relay(
                        data,
                        Next::Continue(Rewriter { state: State::RelayChunked { phase: next } }),
                    ),
                    RelayStep::Complete => finish(vstd::slice::slice_to_vec(data)),
                    RelayStep::Failed(e) => relay(data, Next::Failed(e)),
                }
            },
            State::BodyFixed { headers, size } => {
                if data.len() == size {
                    let text = from_utf8_lossy(data);
                    finish(
                        rewrite_response(
                            proxy,
                            headers.as_str(),
                            true,
                            false,
                            data.len(),
                            text.as_str(),
                        ),
                    )
                } else {
                    quiet(Next::Failed(ProxyError::UnexpectedEof))
                }
            },
            State::BodyChunked { headers, length_known, decoder } => {
                match decoder.feed(data) {
                    ChunkedProgress::Continue(next) => quiet(
                        Next::Continue(
                            Rewriter {
                                state: State::BodyChunked { headers, length_known, decoder: next },
                            },
                        ),
                    ),
                    ChunkedProgress::Failed(e) => quiet(Next::Failed(e)),
                    ChunkedProgress::Complete(body) => {
                        let text = from_utf8_lossy(body.as_slice());
                        finish(
                            rewrite_response(
                                proxy,
                                headers.as_str(),
                                length_known,
                                true,
                                body.len(),
                                text.as_str(),
                            ),
                        )
                    },
                }
            },
        }
    }
}

/// What the handling of a whole stream comes to: everything that is
/// written to the client, how the handling ends, and what the stream holds
/// afterwards.
pub struct Relayed {
    pub output: Seq<u8>,
    pub result: Result<(), ProxyError>,
    pub left: Seq<u8>,
}

impl Rewriting {
    /// Bounds the steps that may follow one another without a byte being
    /// read in between.
    pub open spec fn rank(self) -> nat {
        match self {
            Rewriting::Headers { .. } => 0,
            Rewriting::RelayChunked { phase } => 1 + relay_rank(phase),
            Rewriting::BodyChunked { decoder, .. } => 1 + decoder.rank(),
            _ => 1,
        }
    }

    /// A step that is followed by another one either reads at least one
    /// byte or leads to a state of lower rank.
    pub proof fn lemma_progress(self, origin: Seq<char>, proxy: Seq<char>, rest: Seq<u8>)
        ensures
            match supplied(rest, self.wanted()) {
                Some(data) => match self.step(origin, proxy, data).after {
                    After::Continue(next) => data.len() <= rest.len() && (data.len() > 0
                        || next.rank() < self.rank()),
                    _ => true,
                },
                None => true,
            },
    {
        lemma_segment_len_bounds(rest, LINE_FEED);
    }

    /// The handling of the stream `rest` from this state on, for a proxy
    /// that puts `proxy` in place of `origin`: step after step, each on what
    /// the stream hands out for what the state wants. A stream that ends
    /// inside a part of announced length is an error.
    #[verifier::opaque]
    pub open spec fn run(self, origin: Seq<char>, proxy: Seq<char>, rest: Seq<u8>) -> Relayed
        decreases rest.len(), self.rank(),
    {
        match supplied(rest, self.wanted()) {
            None => Relayed {
                output: Seq::empty(),
                result: Err(ProxyError::UnexpectedEof),
                left: Seq::empty(),
            },
            Some(data) => {
                let left = rest.skip(data.len() as int);
                let step = self.step(origin, proxy, data);
                match step.after {
                    After::Continue(next) => {
                        proof {
                            self.lemma_progress(origin, proxy, rest);
                        }
                        let more = next.run(origin, proxy, left);
                        Relayed { output: step.output + more.output, ..more }
                    },
                    After::StreamRest => Relayed {
                        output: step.output + left,
                        result: Ok(()),
                        left: Seq::empty(),
                    },
                    After::Done => Relayed { output: step.output, result: Ok(()), left },
                    After::Failed(e) => Relayed { output: step.output, result: Err(e), left },
                }
            },
        }
    }
}

/// What follows from a step for the handling of the rest of a stream.
pub open spec fn run_after(
    step: Step,
    origin: Seq<char>,
    proxy: Seq<char>,
    left: Seq<u8>,
) -> Relayed {
    match step.after {
        After::Continue(next) => {
            let more = next.run(origin, proxy, left);
            Relayed { output: step.output + more.output, ..more }
        },
        After::StreamRest => Relayed {
            output: step.output + left,
            result: Ok(()),
            left: Seq::empty(),
        },
        After::Done => Relayed { output: step.output, result: Ok(()), left },
        After::Failed(e) => Relayed { output: step.output, result: Err(e), left },
    }
}

/// The handling of a stream is one step, on what the stream hands out, and
/// then the handling of what is left.
pub proof fn lemma_run_unfolds(
    state: Rewriting,
    origin: Seq<char>,
    proxy: Seq<char>,
    rest: Seq<u8>,
)
    ensures
        state.run(origin, proxy, rest) == match supplied(rest, state.wanted()) {
            None => Relayed {
                output: Seq::empty(),
                result: Err(ProxyError::UnexpectedEof),
                left: Seq::empty(),
            },
            Some(data) => run_after(
                state.step(origin, proxy, data),
                origin,
                proxy,
                rest.skip(data.len() as int),
            ),
        },
{
    reveal(Rewriting::run);
}

/// What the proxy writes to the client for the origin's stream `stream`.
pub open spec fn relayed(proxy: TCPProxy, stream: Seq<u8>) -> Relayed {
    Rewriting::start().run(proxy.origin_base(), proxy.proxy_base(), stream)
}

/// Handles the origin's responses on one connection, from `reader` to
/// `writer`, until the stream ends or the connection is given up.
pub fn proxy_response_with_rewrite(
    reader: &mut ByteReader,
    writer: &mut Vec<u8>,
    proxy: &TCPProxy,
) -> (r: Result<(), ProxyError>)
    ensures
        final(writer)@ == old(writer)@ + relayed(*proxy, old(reader).remaining()).output,
        r == relayed(*proxy, old(reader).remaining()).result,
        final(reader).remaining() == relayed(*proxy, old(reader).remaining()).left,
{
    let mut machine = Rewriter::new();
    let ghost all = relayed(*proxy, reader.remaining());
    let ghost origin = proxy.origin_base();
    let ghost target = proxy.proxy_base();
    assert(writer@ + all.output =~= old(writer)@ + all.output);
    loop
        invariant
            all == relayed(*proxy, old(reader).remaining()),
            origin == proxy.origin_base(),
            target == proxy.proxy_base(),
            writer@ + machine@.run(origin, target, reader.remaining()).output == old(writer)@
                + all.output,
            machine@.run(origin, target, reader.remaining()).result == all.result,
            machine@.run(origin, target, reader.remaining()).left == all.left,
        decreases reader.remaining().len(), machine@.rank(),
    {
        let ghost state = machine@;
        let ghost rest = reader.remaining();
        let ghost written = writer@;
        proof {
            state.lemma_progress(origin, target, rest);
            lemma_run_unfolds(state, origin, target, rest);
        }
        let data = match reader.supply(machine.wanted()) {
            Some(data) => data,
            None => {
                assert(written + Seq::<u8>::empty() =~= written);
                return Err(ProxyError::UnexpectedEof);
            },
        };
        let t = machine.step(proxy, data.as_slice());
        push_bytes(writer, t.output.as_slice());
        let ghost here = state.run(origin, target, rest);
        match t.next {
            Next::Continue(next) => {
                machine = next;
                assert(writer@ + machine@.run(origin, target, reader.remaining()).output
                    =~= written + here.output);
            },
            Next::StreamRest => {
                let tail = reader.read_to_end();
                push_bytes(writer, tail.as_slice());
                assert(writer@ =~= written + here.output);
                return Ok(());
            },
            Next::Done => {
                return Ok(());
            },
            Next::Failed(e) => {
                return Err(e);
            },
        }
    }
}

} // verus!
