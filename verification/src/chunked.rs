//! The chunked transfer coding: the size line of a chunk, the encoding of a
//! body as one chunk, and the decoding of a chunked body under a size limit.

use crate::digits::{
    all_hex_digits, format_hex, hex, is_hex_digit, lemma_hex_round_trip, parse_hex,
    parse_hex_usize,
};
use crate::stream::{
    left_after, left_of, lemma_segment_len_bounds, lemma_segment_len_skip, push_bytes,
    relay_limit, relay_read, segment_len, still_to_come, supplied, ByteReader, Wanted,
    LINE_FEED,
};
use vstd::prelude::*;

verus! {

/// Why the proxy gives up on a connection.
#[derive(Debug, Clone, Copy, PartialEq, Eq, Structural)]
pub enum ProxyError {
    /// A chunk's size line does not start with a hexadecimal number that
    /// fits the machine.
    InvalidChunkSize,
    /// A chunked body that is to be rewritten is longer than the limit.
    BodyTooLarge,
    /// The stream ended inside a part whose length was announced.
    UnexpectedEof,
}

impl ProxyError {
    /// Whether the error is about what the origin sent, as opposed to the
    /// stream ending early.
    pub fn is_invalid_data(&self) -> (b: bool)
        ensures
            b == (*self != ProxyError::UnexpectedEof),
    {
        match self {
            ProxyError::InvalidChunkSize => true,
            ProxyError::BodyTooLarge => true,
            ProxyError::UnexpectedEof => false,
        }
    }

    /// A description for logs.
    pub fn message(&self) -> (s: &'static str)
        ensures
            s@ == match *self {
                ProxyError::InvalidChunkSize => "Invalid chunk size"@,
                ProxyError::BodyTooLarge => "Chunked body exceeds maximum size"@,
                ProxyError::UnexpectedEof => "Unexpected end of stream"@,
            },
    {
        match self {
            ProxyError::InvalidChunkSize => "Invalid chunk size",
            ProxyError::BodyTooLarge => "Chunked body exceeds maximum size",
            ProxyError::UnexpectedEof => "Unexpected end of stream",
        }
    }
}

/// The `;` that begins a chunk extension.
pub const SEMICOLON: u8 = 59;

/// The `\r` of a line ending.
pub const CARRIAGE_RETURN: u8 = 13;

/// The space.
pub const SPACE: u8 = 32;

/// The bytes that end the number on a chunk's size line.
pub open spec fn ends_size_field(b: u8) -> bool {
    b == SEMICOLON || b == CARRIAGE_RETURN || b == LINE_FEED || b == SPACE
}

/// Number of bytes of `line` before the first `;`, `\r`, `\n` or space.
pub open spec fn size_field_len(line: Seq<u8>) -> nat
    decreases line.len(),
{
    if line.len() == 0 || ends_size_field(line[0]) {
        0
    } else {
        1 + size_field_len(line.skip(1))
    }
}

/// The part of a size line that holds the number.
pub open spec fn size_field(line: Seq<u8>) -> Seq<u8> {
    line.take(size_field_len(line) as int)
}

/// The chunk size that a size line announces: its size field read as a
/// hexadecimal number. `None` where the field is empty, holds anything but
/// hexadecimal digits, or denotes more than a `usize` holds.
pub open spec fn chunk_size(line: Seq<u8>) -> Option<usize> {
    match parse_hex(size_field(line)) {
        Some(n) => if n <= usize::MAX {
            Some(n as usize)
        } else {
            None
        },
        None => None,
    }
}

/// A line that starts with `n` bytes of a number, followed by a byte that
/// ends the number or by nothing, has a size field of `n` bytes.
pub proof fn lemma_size_field_len_is(line: Seq<u8>, n: int)
    requires
        0 <= n <= line.len(),
        forall|k: int| 0 <= k < n ==> !ends_size_field(line[k]),
        n == line.len() || ends_size_field(line[n]),
    ensures
        size_field_len(line) == n,
    decreases n,
{
    if n > 0 {
        lemma_size_field_len_is(line.skip(1), n - 1);
    }
}

/// Reads the chunk size from a chunk's size line.
pub fn parse_chunk_size(line: &[u8]) -> (r: Result<usize, ProxyError>)
    ensures
        r == match chunk_size(line@) {
            Some(n) => Ok::<usize, ProxyError>(n),
            None => Err::<usize, ProxyError>(ProxyError::InvalidChunkSize),
        },
{
    let mut end: usize = 0;
    while end < line.len() && !(line[end] == SEMICOLON || line[end] == CARRIAGE_RETURN || line[end]
        == LINE_FEED || line[end] == SPACE)
        invariant
            end <= line.len(),
            forall|k: int| 0 <= k < end ==> !ends_size_field(line@[k]),
        decreases line.len() - end,
    {
        end += 1;
    }
    proof {
        lemma_size_field_len_is(line@, end as int);
    }
    let field = vstd::slice::slice_subrange(line, 0, end);
    assert(field@ =~= size_field(line@));
    match parse_hex_usize(field) {
        Some(n) => Ok(n),
        None => Err(ProxyError::InvalidChunkSize),
    }
}

/// The end of a line on the wire.
pub open spec fn crlf() -> Seq<u8> {
    seq![CARRIAGE_RETURN, LINE_FEED]
}

/// The chunk of size zero and the empty trailer that end a chunked body.
pub open spec fn last_chunk() -> Seq<u8> {
    seq![48u8, CARRIAGE_RETURN, LINE_FEED, CARRIAGE_RETURN, LINE_FEED]
}

/// `body` in the chunked coding, as a single chunk followed by the chunk of
/// size zero.
pub open spec fn chunked_encoding(body: Seq<u8>) -> Seq<u8> {
    hex(body.len()) + crlf() + body + crlf() + last_chunk()
}

/// Writes `body` in the chunked coding.
pub fn write_chunked_body(writer: &mut Vec<u8>, body: &[u8])
    ensures
        final(writer)@ == old(writer)@ + chunked_encoding(body@),
{
    let size_line = format_hex(body.len());
    push_bytes(writer, size_line.as_slice());
    writer.push(CARRIAGE_RETURN);
    writer.push(LINE_FEED);
    push_bytes(writer, body);
    writer.push(CARRIAGE_RETURN);
    writer.push(LINE_FEED);
    writer.push(48u8);
    writer.push(CARRIAGE_RETURN);
    writer.push(LINE_FEED);
    writer.push(CARRIAGE_RETURN);
    writer.push(LINE_FEED);
    assert(writer@ =~= old(writer)@ + chunked_encoding(body@));
}

/// Reads one line, its line feed included, as raw bytes. An empty result
/// means that the stream has ended.
pub fn read_line_bytes(reader: &mut ByteReader) -> (line: Vec<u8>)
    ensures
        supplied(old(reader).remaining(), Wanted::Line) == Some(line@),
        final(reader).remaining() == left_after(old(reader).remaining(), Wanted::Line),
{
    reader.read_until(LINE_FEED)
}

/// Where the reading of a chunked body stands.
#[derive(Debug, Clone, Copy, PartialEq, Eq, Structural)]
pub enum ChunkPhase {
    /// Before a chunk's size line.
    Size,
    /// In a chunk's data, with the given number of bytes to come.
    Data(usize),
    /// Before the two bytes that follow a chunk's data.
    DataEnd,
    /// Before the line that follows the chunk of size zero.
    Trailer,
}

/// The state of a decoding: the phase, the body collected so far, and the
/// number of bytes that the body may not exceed.
pub struct Collecting {
    pub phase: ChunkPhase,
    pub body: Seq<u8>,
    pub limit: nat,
}

/// What one step of the decoding leads to.
pub enum CollectStep {
    Continue(Collecting),
    Complete(Seq<u8>),
    Failed(ProxyError),
}

impl Collecting {
    /// The state before the first size line.
    pub open spec fn start(limit: nat) -> Collecting {
        Collecting { phase: ChunkPhase::Size, body: Seq::empty(), limit }
    }

    /// What the decoding reads next.
    pub open spec fn wanted(self) -> Wanted {
        match self.phase {
            ChunkPhase::Size => Wanted::Line,
            ChunkPhase::Data(n) => Wanted::Exact(n),
            ChunkPhase::DataEnd => Wanted::Exact(2),
            ChunkPhase::Trailer => Wanted::Line,
        }
    }

    /// The step that the decoding takes on `data`.
    ///
    /// A stream that ends before a size line ends the body. A size line must
    /// announce a size; the size zero leads to the trailer line, after which
    /// the body is complete; any other size must keep the body within the
    /// limit. The two bytes after a chunk's data are taken as they come.
    pub open spec fn step(self, data: Seq<u8>) -> CollectStep {
        match self.phase {
            ChunkPhase::Size => if data.len() == 0 {
                CollectStep::Complete(self.body)
            } else {
                match chunk_size(data) {
                    None => CollectStep::Failed(ProxyError::InvalidChunkSize),
                    Some(n) => if n == 0 {
                        CollectStep::Continue(Collecting { phase: ChunkPhase::Trailer, ..self })
                    } else if self.body.len() + n > self.limit {
                        CollectStep::Failed(ProxyError::BodyTooLarge)
                    } else {
                        CollectStep::Continue(Collecting { phase: ChunkPhase::Data(n), ..self })
                    },
                }
            },
            ChunkPhase::Data(n) => if data.len() == n {
                CollectStep::Continue(
                    Collecting { phase: ChunkPhase::DataEnd, body: self.body + data, ..self },
                )
            } else {
                CollectStep::Failed(ProxyError::UnexpectedEof)
            },
            ChunkPhase::DataEnd => if data.len() == 2 {
                CollectStep::Continue(Collecting { phase: ChunkPhase::Size, ..self })
            } else {
                CollectStep::Failed(ProxyError::UnexpectedEof)
            },
            ChunkPhase::Trailer => CollectStep::Complete(self.body),
        }
    }

    /// Whether one more step may follow without a byte having been read.
    pub open spec fn rank(self) -> nat {
        match self.phase {
            ChunkPhase::Data(_) => 1,
            _ => 0,
        }
    }

    /// The decoding of the stream `rest` from this state on: the body or the
    /// error, and what the stream holds afterwards.
    #[verifier::opaque]
    pub open spec fn run(self, rest: Seq<u8>) -> (Result<Seq<u8>, ProxyError>, Seq<u8>)
        decreases rest.len(), self.rank(),
    {
        match supplied(rest, self.wanted()) {
            None => (Err(ProxyError::UnexpectedEof), Seq::empty()),
            Some(data) => {
                let left = rest.skip(data.len() as int);
                match self.step(data) {
                    CollectStep::Complete(body) => (Ok(body), left),
                    CollectStep::Failed(e) => (Err(e), left),
                    CollectStep::Continue(next) => {
                        proof {
                            lemma_segment_len_bounds(rest, LINE_FEED);
                        }
                        next.run(left)
                    },
                }
            },
        }
    }
}

/// What follows from a step for the decoding of the rest of a stream.
pub open spec fn collect_after(step: CollectStep, left: Seq<u8>) -> (
    Result<Seq<u8>, ProxyError>,
    Seq<u8>,
) {
    match step {
        CollectStep::Complete(body) => (Ok(body), left),
        CollectStep::Failed(e) => (Err(e), left),
        CollectStep::Continue(next) => next.run(left),
    }
}

/// The decoding of a stream is one step, on what the stream hands out, and
/// then the decoding of what is left.
pub proof fn lemma_collect_unfolds(state: Collecting, rest: Seq<u8>)
    ensures
        state.run(rest) == match supplied(rest, state.wanted()) {
            None => (Err::<Seq<u8>, ProxyError>(ProxyError::UnexpectedEof), Seq::<u8>::empty()),
            Some(data) => collect_after(state.step(data), rest.skip(data.len() as int)),
        },
{
    reveal(Collecting::run);
}

/// The body that the chunked stream `stream` holds, read under `limit`,
/// and what follows it in the stream.
pub open spec fn decode_chunked(stream: Seq<u8>, limit: nat) -> (
    Result<Seq<u8>, ProxyError>,
    Seq<u8>,
) {
    Collecting::start(limit).run(stream)
}

/// A decoder of one chunked body that is handed what it asks for, piece by
/// piece, and never holds more than its limit.
pub struct ChunkedBody {
    phase: ChunkPhase,
    body: Vec<u8>,
    limit: usize,
}

/// What a step of a [`ChunkedBody`] leads to.
pub enum ChunkedProgress {
    /// More is to be read.
    Continue(ChunkedBody),
    /// The body is complete.
    Complete(Vec<u8>),
    /// The body cannot be read.
    Failed(ProxyError),
}

impl ChunkedProgress {
    /// The step that the progress stands for.
    pub open spec fn view(self) -> CollectStep {
        match self {
            ChunkedProgress::Continue(next) => CollectStep::Continue(next@),
            ChunkedProgress::Complete(body) => CollectStep::Complete(body@),
            ChunkedProgress::Failed(e) => CollectStep::Failed(e),
        }
    }
}

impl ChunkedBody {
    #[verifier::type_invariant]
    spec fn within_limit(self) -> bool {
        &&& self.body@.len() <= self.limit
        &&& self.phase matches ChunkPhase::Data(n) ==> self.body@.len() + n <= self.limit
    }

    /// The state of the decoding.
    pub closed spec fn view(self) -> Collecting {
        Collecting { phase: self.phase, body: self.body@, limit: self.limit as nat }
    }

    /// A decoder before the first size line.
    pub fn new(limit: usize) -> (decoder: ChunkedBody)
        ensures
            decoder@ == Collecting::start(limit as nat),
    {
        ChunkedBody { phase: ChunkPhase::Size, body: Vec::new(), limit }
    }

    /// What is to be read next and handed to [`ChunkedBody::feed`].
    pub fn wanted(&self) -> (w: Wanted)
        ensures
            w == self@.wanted(),
    {
        match self.phase {
            ChunkPhase::Size => Wanted::Line,
            ChunkPhase::Data(n) => Wanted::Exact(n),
            ChunkPhase::DataEnd => Wanted::Exact(2),
            ChunkPhase::Trailer => Wanted::Line,
        }
    }

    /// Number of body bytes held, which the limit bounds.
    pub fn buffered(&self) -> (n: usize)
        ensures
            n == self@.body.len(),
            n <= self@.limit,
    {
        proof {
            use_type_invariant(self);
        }
        self.body.len()
    }

    /// Takes the step that `data` calls for.
    pub fn feed(self, data: &[u8]) -> (progress: ChunkedProgress)
        ensures
            progress@ == self@.step(data@),
    {
        proof {
            use_type_invariant(&self);
        }
        let ChunkedBody { phase, body, limit } = self;
        match phase {
            ChunkPhase::Size => {
                if data.len() == 0 {
                    return ChunkedProgress::Complete(body);
                }
                match parse_chunk_size(data) {
                    Err(e) => ChunkedProgress::Failed(e),
                    Ok(n) => {
                        if n == 0 {
                            ChunkedProgress::Continue(
                                ChunkedBody { phase: ChunkPhase::Trailer, body, limit },
                            )
                        } else if n > limit - body.len() {
                            ChunkedProgress::Failed(ProxyError::BodyTooLarge)
                        } else {
                            ChunkedProgress::Continue(
                                ChunkedBody { phase: ChunkPhase::Data(n), body, limit },
                            )
                        }
                    },
                }
            },
            ChunkPhase::Data(n) => {
                if data.len() == n {
                    let mut body = body;
                    push_bytes(&mut body, data);
                    ChunkedProgress::Continue(
                        ChunkedBody { phase: ChunkPhase::DataEnd, body, limit },
                    )
                } else {
                    ChunkedProgress::Failed(ProxyError::UnexpectedEof)
                }
            },
            ChunkPhase::DataEnd => {
                if data.len() == 2 {
                    ChunkedProgress::Continue(ChunkedBody { phase: ChunkPhase::Size, body, limit })
                } else {
                    ChunkedProgress::Failed(ProxyError::UnexpectedEof)
                }
            },
            ChunkPhase::Trailer => ChunkedProgress::Complete(body),
        }
    }
}

/// Whether an executable result stands for the given mathematical one.
pub open spec fn same_body(
    r: Result<Vec<u8>, ProxyError>,
    expected: Result<Seq<u8>, ProxyError>,
) -> bool {
    match (r, expected) {
        (Ok(body), Ok(bytes)) => body@ == bytes,
        (Err(e), Err(f)) => e == f,
        _ => false,
    }
}

/// Reads a chunked body from `reader`, keeping at most `max_size` bytes.
pub fn read_chunked_body(reader: &mut ByteReader, max_size: usize) -> (r: Result<
    Vec<u8>,
    ProxyError,
>)
    ensures
        same_body(r, decode_chunked(old(reader).remaining(), max_size as nat).0),
        final(reader).remaining() == decode_chunked(old(reader).remaining(), max_size as nat).1,
{
    let mut decoder = ChunkedBody::new(max_size);
    loop
        invariant
            decoder@.run(reader.remaining()) == decode_chunked(
                old(reader).remaining(),
                max_size as nat,
            ),
        decreases reader.remaining().len(), decoder@.rank(),
    {
        let ghost before = reader.remaining();
        proof {
            lemma_segment_len_bounds(before, LINE_FEED);
            lemma_collect_unfolds(decoder@, before);
        }
        let data = match reader.supply(decoder.wanted()) {
            Some(data) => data,
            None => {
                return Err(ProxyError::UnexpectedEof);
            },
        };
        match decoder.feed(data.as_slice()) {
            ChunkedProgress::Continue(next) => {
                decoder = next;
            },
            ChunkedProgress::Complete(body) => {
                return Ok(body);
            },
            ChunkedProgress::Failed(e) => {
                return Err(e);
            },
        }
    }
}

/// What one step of the passing through of a chunked body leads to.
#[derive(Debug, Clone, Copy, PartialEq, Eq, Structural)]
pub enum RelayStep {
    /// The body goes on, in the given phase.
    Continue(ChunkPhase),
    /// The body has ended.
    Complete,
    /// The body cannot be followed any further.
    Failed(ProxyError),
}

/// What the passing through of a chunked body reads next.
pub open spec fn relay_wanted(phase: ChunkPhase) -> Wanted {
    match phase {
        ChunkPhase::Size => Wanted::Line,
        ChunkPhase::Data(remaining) => Wanted::UpTo(relay_read(remaining)),
        ChunkPhase::DataEnd => Wanted::Exact(2),
        ChunkPhase::Trailer => Wanted::Line,
    }
}

/// The step that the passing through of a chunked body takes on `data`,
/// which is written to the client as it is, whatever the step.
///
/// A stream that ends before a size line ends the body. A size line must
/// announce a size; the size zero leads to the trailer line, which ends the
/// body. A chunk's data is read in pieces; a stream that ends inside it
/// leads on to the two bytes that should follow it.
pub open spec fn relay_step(phase: ChunkPhase, data: Seq<u8>) -> RelayStep {
    match phase {
        ChunkPhase::Size => if data.len() == 0 {
            RelayStep::Complete
        } else {
            match chunk_size(data) {
                None => RelayStep::Failed(ProxyError::InvalidChunkSize),
                Some(n) => if n == 0 {
                    RelayStep::Continue(ChunkPhase::Trailer)
                } else {
                    RelayStep::Continue(ChunkPhase::Data(n))
                },
            }
        },
        ChunkPhase::Data(remaining) => {
            let left = still_to_come(remaining, data.len());
            if data.len() == 0 || left == 0 {
                RelayStep::Continue(ChunkPhase::DataEnd)
            } else {
                RelayStep::Continue(ChunkPhase::Data(left))
            }
        },
        ChunkPhase::DataEnd => if data.len() == 2 {
            RelayStep::Continue(ChunkPhase::Size)
        } else {
            RelayStep::Failed(ProxyError::UnexpectedEof)
        },
        ChunkPhase::Trailer => RelayStep::Complete,
    }
}

/// Bounds the steps that may follow one another without a byte being read
/// in between.
pub open spec fn relay_rank(phase: ChunkPhase) -> nat {
    match phase {
        ChunkPhase::Data(_) => 1,
        _ => 0,
    }
}

/// What the passing through of a chunked body comes to: how it ends, how
/// many bytes of the stream were written to the client, and what the
/// stream holds afterwards.
pub struct Passed {
    pub result: Result<(), ProxyError>,
    pub written: nat,
    pub left: Seq<u8>,
}

/// The passing through of the chunked body that the stream `rest` holds,
/// from `phase` on. What is written is what is read, byte for byte,
/// until the body ends or cannot be followed any further.
#[verifier::opaque]
pub open spec fn relay_run(phase: ChunkPhase, rest: Seq<u8>) -> Passed
    decreases rest.len(), relay_rank(phase),
{
    match supplied(rest, relay_wanted(phase)) {
        None => Passed { result: Err(ProxyError::UnexpectedEof), written: 0, left: Seq::empty() },
        Some(data) => {
            let left = rest.skip(data.len() as int);
            match relay_step(phase, data) {
                RelayStep::Complete => Passed { result: Ok(()), written: data.len(), left },
                RelayStep::Failed(e) => Passed { result: Err(e), written: data.len(), left },
                RelayStep::Continue(next) => {
                    proof {
                        lemma_segment_len_bounds(rest, LINE_FEED);
                    }
                    let more = relay_run(next, left);
                    Passed { written: data.len() + more.written, ..more }
                },
            }
        },
    }
}

/// What follows from a step for the passing through of the rest of a
/// stream, where the step was taken on `n` bytes.
pub open spec fn relay_after(step: RelayStep, n: nat, left: Seq<u8>) -> Passed {
    match step {
        RelayStep::Complete => Passed { result: Ok(()), written: n, left },
        RelayStep::Failed(e) => Passed { result: Err(e), written: n, left },
        RelayStep::Continue(next) => {
            let more = relay_run(next, left);
            Passed { written: (n + more.written) as nat, ..more }
        },
    }
}

/// The passing through of a stream is one step, on what the stream hands
/// out, and then the passing through of what is left.
pub proof fn lemma_relay_unfolds(phase: ChunkPhase, rest: Seq<u8>)
    ensures
        relay_run(phase, rest) == match supplied(rest, relay_wanted(phase)) {
            None => Passed {
                result: Err(ProxyError::UnexpectedEof),
                written: 0,
                left: Seq::empty(),
            },
            Some(data) => relay_after(
                relay_step(phase, data),
                data.len(),
                rest.skip(data.len() as int),
            ),
        },
        relay_run(phase, rest).written <= rest.len(),
    decreases rest.len(), relay_rank(phase),
{
    reveal(relay_run);
    lemma_segment_len_bounds(rest, LINE_FEED);
    match supplied(rest, relay_wanted(phase)) {
        None => {},
        Some(data) => {
            match relay_step(phase, data) {
                RelayStep::Continue(next) => {
                    lemma_relay_unfolds(next, rest.skip(data.len() as int));
                },
                _ => {},
            }
        },
    }
}

/// What the passing through of a chunked body reads next.
pub fn relay_wants(phase: ChunkPhase) -> (w: Wanted)
    ensures
        w == relay_wanted(phase),
{
    match phase {
        ChunkPhase::Size => Wanted::Line,
        ChunkPhase::Data(remaining) => Wanted::UpTo(relay_limit(remaining)),
        ChunkPhase::DataEnd => Wanted::Exact(2),
        ChunkPhase::Trailer => Wanted::Line,
    }
}

/// Takes the step that `data` calls for in the passing through of a
/// chunked body. The caller writes `data` to the client as it is.
pub fn relay_chunk(phase: ChunkPhase, data: &[u8]) -> (step: RelayStep)
    ensures
        step == relay_step(phase, data@),
{
    match phase {
        ChunkPhase::Size => {
            if data.len() == 0 {
                return RelayStep::Complete;
            }
            match parse_chunk_size(data) {
                Err(e) => RelayStep::Failed(e),
                Ok(n) => {
                    if n == 0 {
                        RelayStep::Continue(ChunkPhase::Trailer)
                    } else {
                        RelayStep::Continue(ChunkPhase::Data(n))
                    }
                },
            }
        },
        ChunkPhase::Data(remaining) => {
            let left = left_of(remaining, data.len());
            if data.len() == 0 || left == 0 {
                RelayStep::Continue(ChunkPhase::DataEnd)
            } else {
                RelayStep::Continue(ChunkPhase::Data(left))
            }
        },
        ChunkPhase::DataEnd => {
            if data.len() == 2 {
                RelayStep::Continue(ChunkPhase::Size)
            } else {
                RelayStep::Failed(ProxyError::UnexpectedEof)
            }
        },
        ChunkPhase::Trailer => RelayStep::Complete,
    }
}

/// Passes a chunked body through from `reader` to `writer`, size lines,
/// extensions and trailer line included, without holding more than one
/// piece of it at a time.
pub fn pass_through_chunked(reader: &mut ByteReader, writer: &mut Vec<u8>) -> (r: Result<
    (),
    ProxyError,
>)
    ensures
        r == relay_run(ChunkPhase::Size, old(reader).remaining()).result,
        final(writer)@ == old(writer)@ + old(reader).remaining().take(
            relay_run(ChunkPhase::Size, old(reader).remaining()).written as int,
        ),
        final(reader).remaining() == relay_run(ChunkPhase::Size, old(reader).remaining()).left,
{
    let ghost stream = reader.remaining();
    let ghost all = relay_run(ChunkPhase::Size, stream);
    let mut phase = ChunkPhase::Size;
    let ghost mut done: int = 0;
    assert(stream.skip(0) =~= stream);
    assert(writer@ + stream.take(0) =~= writer@);
    loop
        invariant
            stream == old(reader).remaining(),
            all == relay_run(ChunkPhase::Size, stream),
            0 <= done <= stream.len(),
            reader.remaining() == stream.skip(done),
            writer@ == old(writer)@ + stream.take(done),
            relay_run(phase, reader.remaining()).result == all.result,
            relay_run(phase, reader.remaining()).left == all.left,
            done + relay_run(phase, reader.remaining()).written == all.written,
        decreases reader.remaining().len(), relay_rank(phase),
    {
        let ghost rest = reader.remaining();
        proof {
            lemma_segment_len_bounds(rest, LINE_FEED);
            lemma_relay_unfolds(phase, rest);
        }
        let data = match reader.supply(relay_wants(phase)) {
            Some(data) => data,
            None => {
                return Err(ProxyError::UnexpectedEof);
            },
        };
        push_bytes(writer, data.as_slice());
        proof {
            assert(rest.skip(data@.len() as int) =~= stream.skip(done + data@.len()));
            assert(stream.take(done) + data@ =~= stream.take(done + data@.len()));
            done = done + data@.len();
        }
        match relay_chunk(phase, data.as_slice()) {
            RelayStep::Continue(next) => {
                phase = next;
            },
            RelayStep::Complete => {
                return Ok(());
            },
            RelayStep::Failed(e) => {
                return Err(e);
            },
        }
    }
}

/// A line whose first line feed stands at index `n` is `n + 1` bytes long.
pub proof fn lemma_line_ends_at(s: Seq<u8>, n: int)
    requires
        0 <= n < s.len(),
        forall|k: int| 0 <= k < n ==> s[k] != LINE_FEED,
        s[n] == LINE_FEED,
    ensures
        segment_len(s, LINE_FEED) == n + 1,
{
    lemma_segment_len_skip(s, LINE_FEED, n);
    assert(s.skip(n)[0] == LINE_FEED);
}

/// Whether the bytes are one line as it is read from a stream: they end in
/// a line feed and hold no other.
pub open spec fn is_line(line: Seq<u8>) -> bool {
    &&& line.len() > 0
    &&& line.last() == LINE_FEED
    &&& forall|k: int| 0 <= k < line.len() - 1 ==> line[k] != LINE_FEED
}

/// Whether the bytes are a size line that announces `n` bytes, whatever
/// extensions the line carries.
pub open spec fn announces(line: Seq<u8>, n: nat) -> bool {
    is_line(line) && n <= usize::MAX && chunk_size(line) == Some(n as usize)
}

/// A stream that begins with a line hands that line out when a line is
/// asked for.
pub proof fn lemma_line_is_read(line: Seq<u8>, after: Seq<u8>)
    requires
        is_line(line),
    ensures
        supplied(line + after, Wanted::Line) == Some(line),
        (line + after).skip(line.len() as int) == after,
{
    let s = line + after;
    assert forall|k: int| 0 <= k < line.len() - 1 implies s[k] != LINE_FEED by {
        assert(s[k] == line[k]);
    }
    lemma_line_ends_at(s, line.len() - 1);
    assert(s.take(line.len() as int) =~= line);
    assert(s.skip(line.len() as int) =~= after);
}

/// The size line `hex(n)\r\n` announces `n`.
pub proof fn lemma_size_line_announces(n: nat)
    requires
        n <= usize::MAX,
    ensures
        announces(hex(n) + crlf(), n),
{
    let h = hex(n);
    lemma_hex_round_trip(n);
    assert(all_hex_digits(h));
    let line = h + crlf();
    assert forall|k: int| 0 <= k < line.len() - 1 implies line[k] != LINE_FEED by {
        if k < h.len() {
            assert(line[k] == h[k]);
            assert(is_hex_digit(h[k]));
        }
    }
    assert forall|k: int| 0 <= k < h.len() implies !ends_size_field(line[k]) by {
        assert(line[k] == h[k]);
        assert(is_hex_digit(h[k]));
    }
    lemma_size_field_len_is(line, h.len() as int);
    assert(size_field(line) =~= h);
}

/// A chunk on the wire: a size line, the data, and a line ending.
pub open spec fn framed_chunk(line: Seq<u8>, data: Seq<u8>) -> Seq<u8> {
    line + data + crlf()
}

/// Whether a size line and data make a chunk: there is data, and the line
/// announces as many bytes as there are.
pub open spec fn is_chunk(chunk: (Seq<u8>, Seq<u8>)) -> bool {
    chunk.1.len() > 0 && announces(chunk.0, chunk.1.len())
}

/// The chunks on the wire, one after the other; each is a size line and
/// its data.
pub open spec fn framed_chunks(chunks: Seq<(Seq<u8>, Seq<u8>)>) -> Seq<u8>
    decreases chunks.len(),
{
    if chunks.len() == 0 {
        Seq::empty()
    } else {
        framed_chunk(chunks[0].0, chunks[0].1) + framed_chunks(chunks.skip(1))
    }
}

/// The data of the chunks, put together.
pub open spec fn chunks_data(chunks: Seq<(Seq<u8>, Seq<u8>)>) -> Seq<u8>
    decreases chunks.len(),
{
    if chunks.len() == 0 {
        Seq::empty()
    } else {
        chunks[0].1 + chunks_data(chunks.skip(1))
    }
}

/// A chunk that the limit admits is decoded to its data, whatever
/// extensions its size line carries, and the decoding goes on behind it.
pub proof fn lemma_chunk_is_collected(
    collected: Seq<u8>,
    limit: nat,
    line: Seq<u8>,
    data: Seq<u8>,
    later: Seq<u8>,
)
    requires
        is_chunk((line, data)),
        collected.len() + data.len() <= limit,
    ensures
        (Collecting { phase: ChunkPhase::Size, body: collected, limit }).run(
            framed_chunk(line, data) + later,
        ) == (Collecting { phase: ChunkPhase::Size, body: collected + data, limit }).run(later),
{
    let s0 = Collecting { phase: ChunkPhase::Size, body: collected, limit };
    let n = data.len();
    let stream = framed_chunk(line, data) + later;
    let after = data + crlf() + later;
    let after1 = crlf() + later;
    let s1 = Collecting { phase: ChunkPhase::Data(n as usize), ..s0 };
    let s2 = Collecting { phase: ChunkPhase::DataEnd, body: collected + data, ..s0 };
    let s3 = Collecting { phase: ChunkPhase::Size, ..s2 };
    assert(s0.run(stream) == s1.run(after)) by {
        assert(stream =~= line + after);
        lemma_line_is_read(line, after);
        assert(s0.step(line) == CollectStep::Continue(s1));
        lemma_collect_unfolds(s0, stream);
    }
    assert(s1.run(after) == s2.run(after1)) by {
        assert(after.take(n as int) =~= data);
        assert(after.skip(n as int) =~= after1);
        assert(supplied(after, s1.wanted()) == Some(data));
        assert(s1.step(data) == CollectStep::Continue(s2));
        lemma_collect_unfolds(s1, after);
    }
    assert(s2.run(after1) == s3.run(later)) by {
        assert(after1.take(2) =~= crlf());
        assert(after1.skip(2) =~= later);
        assert(supplied(after1, s2.wanted()) == Some(crlf()));
        assert(s2.step(crlf()) == CollectStep::Continue(s3));
        lemma_collect_unfolds(s2, after1);
    }
}

/// A size line that announces no bytes, and the line after it, end the
/// body, and the decoding stops behind them.
pub proof fn lemma_last_chunk_ends_the_body(
    collected: Seq<u8>,
    limit: nat,
    last: Seq<u8>,
    trailer: Seq<u8>,
    tail: Seq<u8>,
)
    requires
        announces(last, 0),
        is_line(trailer),
    ensures
        (Collecting { phase: ChunkPhase::Size, body: collected, limit }).run(
            last + trailer + tail,
        ) == (Ok::<Seq<u8>, ProxyError>(collected), tail),
{
    let s0 = Collecting { phase: ChunkPhase::Size, body: collected, limit };
    let s1 = Collecting { phase: ChunkPhase::Trailer, ..s0 };
    let stream = last + trailer + tail;
    let after = trailer + tail;
    assert(s0.run(stream) == s1.run(after)) by {
        assert(stream =~= last + after);
        lemma_line_is_read(last, after);
        assert(s0.step(last) == CollectStep::Continue(s1));
        lemma_collect_unfolds(s0, stream);
    }
    assert(s1.run(after) == (Ok::<Seq<u8>, ProxyError>(collected), tail)) by {
        lemma_line_is_read(trailer, tail);
        lemma_collect_unfolds(s1, after);
    }
}

/// The chunk of size zero with its empty trailer, as it is written, is a
/// size line that announces no bytes and one more line.
pub proof fn lemma_last_chunk_is_two_lines()
    ensures
        last_chunk() == hex(0) + crlf() + crlf(),
        announces(hex(0) + crlf(), 0),
        is_line(crlf()),
{
    lemma_size_line_announces(0);
    assert(hex(0) =~= seq![48u8]);
    assert(last_chunk() =~= hex(0) + crlf() + crlf());
}

/// Reading back what [`write_chunked_body`] wrote gives the body, for every
/// byte sequence that the limit admits.
pub proof fn lemma_chunked_round_trip(body: Seq<u8>, limit: nat)
    requires
        body.len() <= limit,
        body.len() <= usize::MAX,
    ensures
        decode_chunked(chunked_encoding(body), limit).0 == Ok::<Seq<u8>, ProxyError>(body),
        decode_chunked(chunked_encoding(body), limit).1 == if body.len() == 0 {
            last_chunk()
        } else {
            Seq::<u8>::empty()
        },
{
    let none = Seq::<u8>::empty();
    let zero = hex(0) + crlf();
    lemma_last_chunk_is_two_lines();
    if body.len() == 0 {
        assert(chunked_encoding(body) =~= zero + crlf() + last_chunk());
        lemma_last_chunk_ends_the_body(none, limit, zero, crlf(), last_chunk());
        assert(body =~= none);
    } else {
        let line = hex(body.len()) + crlf();
        lemma_size_line_announces(body.len());
        assert(chunked_encoding(body) =~= framed_chunk(line, body) + (zero + crlf() + none));
        lemma_chunk_is_collected(none, limit, line, body, zero + crlf() + none);
        lemma_last_chunk_ends_the_body(none + body, limit, zero, crlf(), none);
        assert(none + body =~= body);
    }
}

/// A body that arrives in any number of chunks, with whatever extensions
/// on their size lines, is decoded to the data of its chunks, in order, and
/// the decoding stops right behind the line that follows the last size
/// line: whatever comes after it in the stream is left.
pub proof fn lemma_chunks_are_joined(
    chunks: Seq<(Seq<u8>, Seq<u8>)>,
    last: Seq<u8>,
    trailer: Seq<u8>,
    collected: Seq<u8>,
    limit: nat,
    tail: Seq<u8>,
)
    requires
        forall|i: int| 0 <= i < chunks.len() ==> is_chunk(#[trigger] chunks[i]),
        announces(last, 0),
        is_line(trailer),
        collected.len() + chunks_data(chunks).len() <= limit,
    ensures
        (Collecting { phase: ChunkPhase::Size, body: collected, limit }).run(
            framed_chunks(chunks) + last + trailer + tail,
        ) == (Ok::<Seq<u8>, ProxyError>(collected + chunks_data(chunks)), tail),
    decreases chunks.len(),
{
    if chunks.len() == 0 {
        lemma_last_chunk_ends_the_body(collected, limit, last, trailer, tail);
        assert(framed_chunks(chunks) + last + trailer + tail =~= last + trailer + tail);
        assert(collected + chunks_data(chunks) =~= collected);
    } else {
        let line = chunks[0].0;
        let data = chunks[0].1;
        let rest = chunks.skip(1);
        let later = framed_chunks(rest) + last + trailer + tail;
        assert(is_chunk(chunks[0]));
        assert(framed_chunks(chunks) + last + trailer + tail =~= framed_chunk(line, data) + later);
        lemma_chunk_is_collected(collected, limit, line, data, later);
        assert forall|i: int| 0 <= i < rest.len() implies is_chunk(#[trigger] rest[i]) by {
            assert(rest[i] == chunks[i + 1]);
        }
        lemma_chunks_are_joined(rest, last, trailer, collected + data, limit, tail);
        assert(collected + data + chunks_data(rest) =~= collected + chunks_data(chunks));
    }
}

/// The data of a chunk is passed through to its last byte, in however many
/// pieces, and then the two bytes that follow it are awaited.
pub proof fn lemma_data_is_passed(remaining: usize, rest: Seq<u8>)
    requires
        0 < remaining <= rest.len(),
    ensures
        relay_run(ChunkPhase::Data(remaining), rest) == ({
            let more = relay_run(ChunkPhase::DataEnd, rest.skip(remaining as int));
            Passed { written: (remaining + more.written) as nat, ..more }
        }),
    decreases remaining,
{
    let phase = ChunkPhase::Data(remaining);
    let m = relay_read(remaining) as int;
    let data = rest.take(m);
    let left = rest.skip(m);
    assert(supplied(rest, relay_wanted(phase)) == Some(data));
    lemma_relay_unfolds(phase, rest);
    let fewer = still_to_come(remaining, m as nat);
    if fewer != 0 {
        lemma_data_is_passed(fewer, left);
        assert(left.skip(fewer as int) =~= rest.skip(remaining as int));
    }
}

/// A chunk is passed through whole, size line and extensions included, and
/// the passing through goes on behind it.
pub proof fn lemma_chunk_is_passed(line: Seq<u8>, data: Seq<u8>, later: Seq<u8>)
    requires
        is_chunk((line, data)),
    ensures
        relay_run(ChunkPhase::Size, framed_chunk(line, data) + later) == ({
            let more = relay_run(ChunkPhase::Size, later);
            Passed { written: (framed_chunk(line, data).len() + more.written) as nat, ..more }
        }),
{
    let n = data.len();
    let stream = framed_chunk(line, data) + later;
    let after = data + crlf() + later;
    let after1 = crlf() + later;
    assert(relay_run(ChunkPhase::Size, stream) == ({
        let more = relay_run(ChunkPhase::Data(n as usize), after);
        Passed { written: (line.len() + more.written) as nat, ..more }
    })) by {
        assert(stream =~= line + after);
        lemma_line_is_read(line, after);
        lemma_relay_unfolds(ChunkPhase::Size, stream);
    }
    assert(relay_run(ChunkPhase::Data(n as usize), after) == ({
        let more = relay_run(ChunkPhase::DataEnd, after1);
        Passed { written: (n + more.written) as nat, ..more }
    })) by {
        lemma_data_is_passed(n as usize, after);
        assert(after.skip(n as int) =~= after1);
    }
    assert(relay_run(ChunkPhase::DataEnd, after1) == ({
        let more = relay_run(ChunkPhase::Size, later);
        Passed { written: (2 + more.written) as nat, ..more }
    })) by {
        assert(after1.take(2) =~= crlf());
        assert(after1.skip(2) =~= later);
        assert(supplied(after1, relay_wanted(ChunkPhase::DataEnd)) == Some(crlf()));
        lemma_relay_unfolds(ChunkPhase::DataEnd, after1);
    }
}

/// A size line that announces no bytes, and the line after it, are passed
/// through, and end the body.
pub proof fn lemma_last_chunk_is_passed(last: Seq<u8>, trailer: Seq<u8>, tail: Seq<u8>)
    requires
        announces(last, 0),
        is_line(trailer),
    ensures
        relay_run(ChunkPhase::Size, last + trailer + tail) == (Passed {
            result: Ok(()),
            written: last.len() + trailer.len(),
            left: tail,
        }),
{
    let stream = last + trailer + tail;
    let after = trailer + tail;
    assert(relay_run(ChunkPhase::Size, stream) == ({
        let more = relay_run(ChunkPhase::Trailer, after);
        Passed { written: (last.len() + more.written) as nat, ..more }
    })) by {
        assert(stream =~= last + after);
        lemma_line_is_read(last, after);
        lemma_relay_unfolds(ChunkPhase::Size, stream);
    }
    assert(relay_run(ChunkPhase::Trailer, after) == (Passed {
        result: Ok(()),
        written: trailer.len(),
        left: tail,
    })) by {
        lemma_line_is_read(trailer, tail);
        lemma_relay_unfolds(ChunkPhase::Trailer, after);
    }
}

/// A body that arrives in any number of chunks, with whatever extensions
/// on their size lines, is passed through whole, byte for byte, up to and
/// including the line that follows the last size line; and the passing
/// through stops right behind it.
pub proof fn lemma_chunks_are_passed(
    chunks: Seq<(Seq<u8>, Seq<u8>)>,
    last: Seq<u8>,
    trailer: Seq<u8>,
    tail: Seq<u8>,
)
    requires
        forall|i: int| 0 <= i < chunks.len() ==> is_chunk(#[trigger] chunks[i]),
        announces(last, 0),
        is_line(trailer),
    ensures
        relay_run(ChunkPhase::Size, framed_chunks(chunks) + last + trailer + tail) == (Passed {
            result: Ok(()),
            written: (framed_chunks(chunks) + last + trailer).len(),
            left: tail,
        }),
    decreases chunks.len(),
{
    if chunks.len() == 0 {
        lemma_last_chunk_is_passed(last, trailer, tail);
        assert(framed_chunks(chunks) + last + trailer + tail =~= last + trailer + tail);
        assert(framed_chunks(chunks) + last + trailer =~= last + trailer);
    } else {
        let line = chunks[0].0;
        let data = chunks[0].1;
        let rest = chunks.skip(1);
        let later = framed_chunks(rest) + last + trailer + tail;
        assert(is_chunk(chunks[0]));
        assert(framed_chunks(chunks) + last + trailer + tail =~= framed_chunk(line, data) + later);
        lemma_chunk_is_passed(line, data, later);
        assert forall|i: int| 0 <= i < rest.len() implies is_chunk(#[trigger] rest[i]) by {
            assert(rest[i] == chunks[i + 1]);
        }
        lemma_chunks_are_passed(rest, last, trailer, tail);
        assert(framed_chunks(chunks) + last + trailer =~= framed_chunk(line, data) + (
        framed_chunks(rest) + last + trailer));
    }
}

} // verus!
