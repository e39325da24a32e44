//! What holds of the handling of responses: of every step, and of whole
//! bodies and responses as they pass.

use crate::chunked::{
    announces, chunks_data, framed_chunks, is_chunk, is_line, lemma_chunks_are_joined,
    lemma_chunks_are_passed, lemma_collect_unfolds, lemma_relay_unfolds, relay_rank, relay_run,
    relay_step, relay_wanted, ChunkPhase, CollectStep, Collecting, ProxyError, RelayStep,
};
use crate::headers::{
    content_length_line, declared_length, declares_chunked, is_content_length_line,
    lemma_content_length_line, lemma_update_leaves_one_length, length_after, needs_rewrite,
    updated_headers,
};
use crate::lossy::utf8_lossy;
use crate::stream::{
    lemma_segment_len_bounds, lemma_segment_len_of_prefix, relay_read, segment_len,
    still_to_come, supplied, Wanted, LINE_FEED, RELAY_BUFFER_SIZE,
};
use crate::tcp_proxy::{
    ends_headers, lemma_run_unfolds, rewritten_body, rewritten_headers, rewritten_response,
    run_after, url_base, After, Relayed, Rewriting, Step, MAX_REWRITABLE_BODY_SIZE,
};
use crate::text::{contains, lemma_replace_without_match, lines};
use vstd::prelude::*;
use vstd::utf8::{decode_utf8, decode_utf8_encode_utf8, valid_utf8};

verus! {

impl Rewriting {
    /// Whether a body is being passed through in this state.
    pub open spec fn is_relaying(self) -> bool {
        match self {
            Rewriting::RelayFixed { .. } => true,
            Rewriting::RelayChunked { .. } => true,
            _ => false,
        }
    }

    /// Whether what is held in memory in this state is within the limit for
    /// bodies that are rewritten.
    pub open spec fn within_budget(self) -> bool {
        match self {
            Rewriting::BodyFixed { size, .. } => size <= MAX_REWRITABLE_BODY_SIZE,
            Rewriting::BodyChunked { decoder, .. } => {
                &&& decoder.limit == MAX_REWRITABLE_BODY_SIZE
                &&& decoder.body.len() <= decoder.limit
                &&& decoder.phase matches ChunkPhase::Data(n) ==> decoder.body.len() + n
                    <= decoder.limit
            },
            _ => true,
        }
    }

    /// The most bytes that this state has read at a time.
    pub open spec fn read_limit(self) -> nat {
        match self.wanted() {
            Wanted::Line => 0,
            Wanted::UpTo(n) => n as nat,
            Wanted::Exact(n) => n as nat,
        }
    }

    /// A body that is passed through is passed through byte for byte: every
    /// step writes what was read, size lines with their extensions
    /// included, and changes nothing; and it is read in pieces of at most
    /// [`RELAY_BUFFER_SIZE`] bytes.
    pub proof fn lemma_relay_is_verbatim(self, origin: Seq<char>, proxy: Seq<char>, data: Seq<u8>)
        requires
            self.is_relaying(),
        ensures
            self.step(origin, proxy, data).output == data,
            self.read_limit() <= RELAY_BUFFER_SIZE,
            match self.step(origin, proxy, data).after {
                After::Continue(next) => next.is_relaying() || next == Rewriting::start(),
                After::Failed(_) => true,
                _ => false,
            },
    {
    }

    /// Every state that is reached from a state within the budget is within
    /// the budget, as the state before the first response is: no step makes
    /// the proxy hold more than [`MAX_REWRITABLE_BODY_SIZE`] bytes of a body,
    /// and nothing longer is ever read at a time.
    pub proof fn lemma_budget_is_kept(self, origin: Seq<char>, proxy: Seq<char>, data: Seq<u8>)
        requires
            self.within_budget(),
        ensures
            Rewriting::start().within_budget(),
            self.read_limit() <= MAX_REWRITABLE_BODY_SIZE,
            self.step(origin, proxy, data).after matches After::Continue(next)
                ==> next.within_budget(),
    {
    }

    /// A body that is declared longer than [`MAX_REWRITABLE_BODY_SIZE`] is
    /// never rewritten: its header block is passed on as it came, its
    /// `Content-Length` with it, and the body is passed through.
    pub proof fn lemma_large_body_is_relayed(raw: Seq<u8>, length: usize, chunked: bool)
        requires
            length > MAX_REWRITABLE_BODY_SIZE,
        ensures
            Rewriting::headers_complete(raw, Some(length), chunked).output == raw,
            Rewriting::headers_complete(raw, Some(length), chunked).after matches After::Continue(
                next,
            ) && next.is_relaying(),
    {
    }

    /// A body whose type is not rewritable is never rewritten, whatever its
    /// framing: its header block is passed on as it came.
    pub proof fn lemma_media_is_relayed(raw: Seq<u8>, length: Option<usize>, chunked: bool)
        requires
            !needs_rewrite(utf8_lossy(raw)),
        ensures
            Rewriting::headers_complete(raw, length, chunked).output == raw,
            match Rewriting::headers_complete(raw, length, chunked).after {
                After::Continue(next) => next.is_relaying() || next == Rewriting::start(),
                After::StreamRest => length is None && !chunked,
                _ => false,
            },
    {
    }
}

/// Before a rewritten body whose length was declared, no `Content-Length`
/// line declares a length that the body has not: where the rewriting has
/// changed the body's length, every such line declares the new one, and
/// where it has not, the header block is the one that came.
pub proof fn lemma_rewritten_length_is_declared(
    headers: Seq<char>,
    old_length: nat,
    text: Seq<char>,
    origin: Seq<char>,
    proxy: Seq<char>,
)
    requires
        rewritten_body(text, origin, proxy).len() <= usize::MAX,
    ensures
        ({
            let new_length = rewritten_body(text, origin, proxy).len();
            let sent = rewritten_headers(headers, true, old_length, new_length);
            if new_length == old_length {
                sent == headers
            } else {
                forall|i: int|
                    0 <= i < lines(sent).len() && is_content_length_line(#[trigger] lines(sent)[i])
                        ==> declared_length(lines(sent)[i]) == Some(new_length as usize)
            }
        }),
{
    let new_length = rewritten_body(text, origin, proxy).len();
    if new_length != old_length {
        lemma_update_leaves_one_length(headers, new_length);
        lemma_content_length_line(new_length);
        let sent = updated_headers(headers, new_length);
        assert forall|i: int|
            0 <= i < lines(sent).len() && is_content_length_line(
                #[trigger] lines(sent)[i],
            ) implies declared_length(lines(sent)[i]) == Some(new_length as usize) by {
            assert(lines(sent)[i] == content_length_line(new_length));
        }
    }
}

/// A stream that has ended ends the handling between two responses, with
/// nothing written.
pub proof fn lemma_end_of_stream(origin: Seq<char>, proxy: Seq<char>)
    ensures
        Rewriting::start().run(origin, proxy, Seq::empty()) == (Relayed {
            output: Seq::empty(),
            result: Ok(()),
            left: Seq::empty(),
        }),
{
    let rest = Seq::<u8>::empty();
    lemma_run_unfolds(Rewriting::start(), origin, proxy, rest);
    assert(supplied(rest, Wanted::Line) == Some(rest.take(0)));
    assert(rest.take(0) =~= rest);
    assert(rest.skip(0) =~= rest);
}

/// A body of declared length that is passed through reaches the client
/// byte for byte, in however many pieces it is read. Where the stream ends
/// inside the body, what there was of it is passed on and the handling ends.
pub proof fn lemma_fixed_body_is_relayed(
    remaining: usize,
    origin: Seq<char>,
    proxy: Seq<char>,
    rest: Seq<u8>,
)
    requires
        remaining > 0,
    ensures
        ({
            let run = (Rewriting::RelayFixed { remaining }).run(origin, proxy, rest);
            if rest.len() >= remaining {
                let more = Rewriting::start().run(origin, proxy, rest.skip(remaining as int));
                &&& run.output == rest.take(remaining as int) + more.output
                &&& run.result == more.result
                &&& run.left == more.left
            } else {
                &&& run.output == rest
                &&& run.result == Ok::<(), ProxyError>(())
                &&& run.left == Seq::<u8>::empty()
            }
        }),
    decreases rest.len(),
{
    let state = Rewriting::RelayFixed { remaining };
    let run = state.run(origin, proxy, rest);
    let asked = relay_read(remaining);
    let m: int = if asked <= rest.len() {
        asked as int
    } else {
        rest.len() as int
    };
    let data = rest.take(m);
    let left = rest.skip(m);
    lemma_run_unfolds(state, origin, proxy, rest);
    assert(supplied(rest, state.wanted()) == Some(data));
    assert(left == rest.skip(data.len() as int));
    if rest.len() == 0 {
        lemma_end_of_stream(origin, proxy);
        assert(left =~= Seq::<u8>::empty());
        assert(state.step(origin, proxy, data) == Step::finish(data));
        assert(run.output =~= rest);
    } else if still_to_come(remaining, m as nat) == 0 {
        assert(m == remaining);
        assert(state.step(origin, proxy, data) == Step::finish(data));
    } else {
        let fewer = still_to_come(remaining, m as nat);
        let next = Rewriting::RelayFixed { remaining: fewer };
        assert(state.step(origin, proxy, data) == Step::relay(data, After::Continue(next)));
        lemma_fixed_body_is_relayed(fewer, origin, proxy, left);
        let then = next.run(origin, proxy, left);
        assert(run.output == data + then.output);
        if rest.len() >= remaining {
            assert(left.skip(fewer as int) =~= rest.skip(remaining as int));
            assert(data + left.take(fewer as int) =~= rest.take(remaining as int));
            let more = Rewriting::start().run(origin, proxy, rest.skip(remaining as int));
            assert(run.output =~= rest.take(remaining as int) + more.output);
        } else {
            assert(data + left =~= rest);
        }
    }
}

/// A body of declared length that is rewritten is read whole; then the
/// header block and the new body are written, and the next response
/// follows. A stream that ends inside the body is an error.
pub proof fn lemma_fixed_body_is_rewritten(
    headers: Seq<char>,
    size: usize,
    origin: Seq<char>,
    proxy: Seq<char>,
    rest: Seq<u8>,
)
    ensures
        ({
            let run = (Rewriting::BodyFixed { headers, size }).run(origin, proxy, rest);
            if rest.len() >= size {
                let body = rest.take(size as int);
                let more = Rewriting::start().run(origin, proxy, rest.skip(size as int));
                &&& run.output == rewritten_response(
                    headers,
                    true,
                    false,
                    size as nat,
                    utf8_lossy(body),
                    origin,
                    proxy,
                ) + more.output
                &&& run.result == more.result
                &&& run.left == more.left
            } else {
                &&& run.output == Seq::<u8>::empty()
                &&& run.result == Err::<(), ProxyError>(ProxyError::UnexpectedEof)
            }
        }),
{
    lemma_run_unfolds(Rewriting::BodyFixed { headers, size }, origin, proxy, rest);
}

/// A chunked body that is rewritten is decoded as [`decode_chunked`]
/// defines; then the header block and the new body, as a single chunk, are
/// written, and the next response follows. A body that cannot be decoded,
/// or that is longer than the limit, ends the handling with the error, and
/// nothing of the response is written.
pub proof fn lemma_chunked_body_is_rewritten(
    headers: Seq<char>,
    length_known: bool,
    decoder: Collecting,
    origin: Seq<char>,
    proxy: Seq<char>,
    rest: Seq<u8>,
)
    ensures
        ({
            let run = (Rewriting::BodyChunked { headers, length_known, decoder }).run(
                origin,
                proxy,
                rest,
            );
            match decoder.run(rest) {
                (Ok(body), left) => {
                    let more = Rewriting::start().run(origin, proxy, left);
                    &&& run.output == rewritten_response(
                        headers,
                        length_known,
                        true,
                        body.len(),
                        utf8_lossy(body),
                        origin,
                        proxy,
                    ) + more.output
                    &&& run.result == more.result
                    &&& run.left == more.left
                },
                (Err(e), left) => {
                    &&& run.output == Seq::<u8>::empty()
                    &&& run.result == Err::<(), ProxyError>(e)
                    &&& run.left == left
                },
            }
        }),
    decreases rest.len(), decoder.rank(),
{
    let state = Rewriting::BodyChunked { headers, length_known, decoder };
    let run = state.run(origin, proxy, rest);
    lemma_segment_len_bounds(rest, LINE_FEED);
    lemma_run_unfolds(state, origin, proxy, rest);
    lemma_collect_unfolds(decoder, rest);
    match supplied(rest, decoder.wanted()) {
        None => {},
        Some(data) => {
            let left = rest.skip(data.len() as int);
            match decoder.step(data) {
                CollectStep::Continue(next) => {
                    lemma_chunked_body_is_rewritten(
                        headers,
                        length_known,
                        next,
                        origin,
                        proxy,
                        left,
                    );
                    let further = Rewriting::BodyChunked { headers, length_known, decoder: next };
                    let then = further.run(origin, proxy, left);
                    assert(run.output == Seq::<u8>::empty() + then.output);
                    assert(Seq::<u8>::empty() + then.output =~= then.output);
                },
                CollectStep::Complete(body) => {},
                CollectStep::Failed(e) => {},
            }
        },
    }
}

/// The address prefix of a proxy's origin is never empty.
pub proof fn lemma_url_base_not_empty(host: Seq<char>, port: u16)
    ensures
        url_base(host, port).len() > 0,
{
    reveal_strlit("http://");
}

/// Where there is nothing to rewrite, nothing is changed: a response whose
/// header block and body are valid UTF-8, and whose body does not hold the
/// origin's address, is written to the client byte for byte.
pub proof fn lemma_nothing_to_rewrite(
    raw_headers: Seq<u8>,
    length_known: bool,
    body: Seq<u8>,
    origin: Seq<char>,
    proxy: Seq<char>,
)
    requires
        valid_utf8(raw_headers),
        valid_utf8(body),
        origin.len() > 0,
        !contains(decode_utf8(body), origin),
    ensures
        rewritten_body(utf8_lossy(body), origin, proxy) == body,
        rewritten_response(
            utf8_lossy(raw_headers),
            length_known,
            false,
            body.len(),
            utf8_lossy(body),
            origin,
            proxy,
        ) == raw_headers + body,
{
    lemma_replace_without_match(decode_utf8(body), origin, proxy);
    decode_utf8_encode_utf8(body);
    decode_utf8_encode_utf8(raw_headers);
}

/// A chunked body that is passed through reaches the client byte for
/// byte, size lines, extensions and trailer line included: what is written
/// for it is the very part of the stream that [`relay_run`] follows. Then
/// the next response follows, unless the body could not be followed to its
/// end.
pub proof fn lemma_chunked_body_is_relayed(
    phase: ChunkPhase,
    origin: Seq<char>,
    proxy: Seq<char>,
    rest: Seq<u8>,
)
    ensures
        ({
            let run = (Rewriting::RelayChunked { phase }).run(origin, proxy, rest);
            let passed = relay_run(phase, rest);
            match passed.result {
                Ok(()) => {
                    let more = Rewriting::start().run(origin, proxy, passed.left);
                    &&& run.output == rest.take(passed.written as int) + more.output
                    &&& run.result == more.result
                    &&& run.left == more.left
                },
                Err(e) => {
                    &&& run.output == rest.take(passed.written as int)
                    &&& run.result == Err::<(), ProxyError>(e)
                    &&& run.left == passed.left
                },
            }
        }),
    decreases rest.len(), relay_rank(phase),
{
    let state = Rewriting::RelayChunked { phase };
    let run = state.run(origin, proxy, rest);
    lemma_segment_len_bounds(rest, LINE_FEED);
    lemma_run_unfolds(state, origin, proxy, rest);
    lemma_relay_unfolds(phase, rest);
    match supplied(rest, relay_wanted(phase)) {
        None => {
            assert(rest.take(0) =~= Seq::<u8>::empty());
        },
        Some(data) => {
            let m = data.len() as int;
            let left = rest.skip(m);
            assert(data =~= rest.take(m));
            match relay_step(phase, data) {
                RelayStep::Continue(next) => {
                    lemma_chunked_body_is_relayed(next, origin, proxy, left);
                    lemma_relay_unfolds(next, left);
                    let further = relay_run(next, left).written as int;
                    assert(data + left.take(further) =~= rest.take(m + further));
                    let then = (Rewriting::RelayChunked { phase: next }).run(origin, proxy, left);
                    match relay_run(next, left).result {
                        Ok(()) => {
                            let more = Rewriting::start().run(
                                origin,
                                proxy,
                                relay_run(next, left).left,
                            );
                            assert(data + (left.take(further) + more.output) =~= rest.take(
                                m + further,
                            ) + more.output);
                        },
                        Err(e) => {},
                    }
                },
                _ => {},
            }
        },
    }
}

/// Number of bytes of the header block that a stream begins with: its
/// lines up to and including the first one that ends a header block.
/// `None` where the stream ends before such a line.
pub open spec fn header_block_len(rest: Seq<u8>) -> Option<nat>
    decreases rest.len(),
{
    let n = segment_len(rest, LINE_FEED);
    if n == 0 {
        None
    } else if ends_headers(rest.take(n as int)) {
        Some(n)
    } else {
        proof {
            lemma_segment_len_bounds(rest, LINE_FEED);
        }
        match header_block_len(rest.skip(n as int)) {
            Some(k) => Some(n + k),
            None => None,
        }
    }
}

/// What is known of the body's framing after the lines of `block`, given
/// what was known before them: the length that the last `Content-Length`
/// line declares, and whether a line declares the chunked coding.
pub open spec fn scanned(length: Option<usize>, chunked: bool, block: Seq<u8>) -> (
    Option<usize>,
    bool,
)
    decreases block.len(),
{
    let n = segment_len(block, LINE_FEED);
    if n == 0 {
        (length, chunked)
    } else {
        proof {
            lemma_segment_len_bounds(block, LINE_FEED);
        }
        let line = utf8_lossy(block.take(n as int));
        scanned(
            length_after(length, line),
            chunked || declares_chunked(line),
            block.skip(n as int),
        )
    }
}

/// A header block is read line by line up to the line that ends it, and
/// then the step for the complete block is taken, with the framing that
/// its lines declare. A stream that ends inside a header block ends the
/// handling, and nothing of the block is written.
pub proof fn lemma_header_block_is_read(
    raw: Seq<u8>,
    length: Option<usize>,
    chunked: bool,
    origin: Seq<char>,
    proxy: Seq<char>,
    rest: Seq<u8>,
)
    ensures
        (Rewriting::Headers { raw, length, chunked }).run(origin, proxy, rest)
            == match header_block_len(rest) {
            None => Relayed { output: Seq::empty(), result: Ok(()), left: Seq::empty() },
            Some(k) => {
                let block = rest.take(k as int);
                let found = scanned(length, chunked, block);
                run_after(
                    Rewriting::headers_complete(raw + block, found.0, found.1),
                    origin,
                    proxy,
                    rest.skip(k as int),
                )
            },
        },
    decreases rest.len(),
{
    let state = Rewriting::Headers { raw, length, chunked };
    let n = segment_len(rest, LINE_FEED) as int;
    lemma_segment_len_bounds(rest, LINE_FEED);
    lemma_run_unfolds(state, origin, proxy, rest);
    let data = rest.take(n);
    let left = rest.skip(n);
    assert(supplied(rest, state.wanted()) == Some(data));
    if n == 0 {
        assert(left =~= Seq::<u8>::empty());
    } else {
        let line = utf8_lossy(data);
        let length1 = length_after(length, line);
        let chunked1 = chunked || declares_chunked(line);
        if ends_headers(data) {
            lemma_segment_len_of_prefix(rest, LINE_FEED, n);
            assert(data.take(n) =~= data);
            assert(data.skip(n) =~= Seq::<u8>::empty());
            assert(scanned(length1, chunked1, data.skip(n)) == (length1, chunked1));
            assert(scanned(length, chunked, data) == (length1, chunked1));
        } else {
            let next = Rewriting::Headers { raw: raw + data, length: length1, chunked: chunked1 };
            lemma_header_block_is_read(raw + data, length1, chunked1, origin, proxy, left);
            let then = next.run(origin, proxy, left);
            assert(Seq::<u8>::empty() + then.output =~= then.output);
            match header_block_len(left) {
                None => {},
                Some(k) => {
                    let m = n + k;
                    lemma_header_block_len_bounds(left);
                    let block = rest.take(m);
                    lemma_segment_len_of_prefix(rest, LINE_FEED, m);
                    assert(block.take(n) =~= data);
                    assert(block.skip(n) =~= left.take(k as int));
                    assert(scanned(length, chunked, block) == scanned(
                        length1,
                        chunked1,
                        left.take(k as int),
                    ));
                    assert(raw + data + left.take(k as int) =~= raw + block);
                    assert(left.skip(k as int) =~= rest.skip(m));
                },
            }
        }
    }
}

/// A header block is no longer than the stream.
pub proof fn lemma_header_block_len_bounds(rest: Seq<u8>)
    ensures
        header_block_len(rest) matches Some(k) ==> 0 < k <= rest.len(),
    decreases rest.len(),
{
    let n = segment_len(rest, LINE_FEED);
    lemma_segment_len_bounds(rest, LINE_FEED);
    if n != 0 && !ends_headers(rest.take(n as int)) {
        lemma_header_block_len_bounds(rest.skip(n as int));
    }
}

/// A response of declared length whose type is not rewritable, or whose
/// length is above the limit, reaches the client as the origin sent it,
/// header block and body, and the next response follows.
pub proof fn lemma_media_response_is_relayed(
    origin: Seq<char>,
    proxy: Seq<char>,
    block: Seq<u8>,
    body: Seq<u8>,
    tail: Seq<u8>,
)
    requires
        header_block_len(block + body + tail) == Some(block.len()),
        scanned(None, false, block) == (Some(body.len() as usize), false),
        body.len() <= usize::MAX,
        !needs_rewrite(utf8_lossy(block)) || body.len() > MAX_REWRITABLE_BODY_SIZE,
    ensures
        ({
            let all = Rewriting::start().run(origin, proxy, block + body + tail);
            let more = Rewriting::start().run(origin, proxy, tail);
            &&& all.output == block + body + more.output
            &&& all.result == more.result
            &&& all.left == more.left
        }),
{
    let stream = block + body + tail;
    let n = body.len() as usize;
    lemma_header_block_is_read(Seq::empty(), None, false, origin, proxy, stream);
    assert(stream.take(block.len() as int) =~= block);
    assert(stream.skip(block.len() as int) =~= body + tail);
    assert(Seq::<u8>::empty() + block =~= block);
    let step = Rewriting::headers_complete(block, Some(n), false);
    let more = Rewriting::start().run(origin, proxy, tail);
    if n == 0 {
        assert(body + tail =~= tail);
        assert(block + body + more.output =~= block + more.output);
    } else {
        lemma_fixed_body_is_relayed(n, origin, proxy, body + tail);
        assert((body + tail).take(n as int) =~= body);
        assert((body + tail).skip(n as int) =~= tail);
        assert(block + (body + more.output) =~= block + body + more.output);
    }
}

/// A response of declared length whose type is rewritable, and whose length
/// is within the limit, reaches the client with the proxy's address in
/// place of the origin's in its body and, where that has changed the body's
/// length, with the new length in its header block; the next response
/// follows.
pub proof fn lemma_text_response_is_rewritten(
    origin: Seq<char>,
    proxy: Seq<char>,
    block: Seq<u8>,
    body: Seq<u8>,
    tail: Seq<u8>,
)
    requires
        header_block_len(block + body + tail) == Some(block.len()),
        scanned(None, false, block) == (Some(body.len() as usize), false),
        body.len() <= MAX_REWRITABLE_BODY_SIZE,
        needs_rewrite(utf8_lossy(block)),
    ensures
        ({
            let all = Rewriting::start().run(origin, proxy, block + body + tail);
            let more = Rewriting::start().run(origin, proxy, tail);
            &&& all.output == rewritten_response(
                utf8_lossy(block),
                true,
                false,
                body.len(),
                utf8_lossy(body),
                origin,
                proxy,
            ) + more.output
            &&& all.result == more.result
            &&& all.left == more.left
        }),
{
    let stream = block + body + tail;
    let n = body.len() as usize;
    lemma_header_block_is_read(Seq::empty(), None, false, origin, proxy, stream);
    assert(stream.take(block.len() as int) =~= block);
    assert(stream.skip(block.len() as int) =~= body + tail);
    assert(Seq::<u8>::empty() + block =~= block);
    lemma_fixed_body_is_rewritten(utf8_lossy(block), n, origin, proxy, body + tail);
    assert((body + tail).take(n as int) =~= body);
    assert((body + tail).skip(n as int) =~= tail);
    let then = (Rewriting::BodyFixed { headers: utf8_lossy(block), size: n }).run(
        origin,
        proxy,
        body + tail,
    );
    assert(Seq::<u8>::empty() + then.output =~= then.output);
}

/// A chunked response whose type is not rewritable, or whose declared
/// length is above the limit, reaches the client as the origin sent it:
/// the header block, and then every chunk with its size line, its
/// extensions, its data and its line ending, the last size line and the
/// line after it. No chunk is merged or resized. Then the next response
/// follows.
pub proof fn lemma_chunked_media_response_is_relayed(
    origin: Seq<char>,
    proxy: Seq<char>,
    block: Seq<u8>,
    length: Option<usize>,
    chunks: Seq<(Seq<u8>, Seq<u8>)>,
    last: Seq<u8>,
    trailer: Seq<u8>,
    tail: Seq<u8>,
)
    requires
        header_block_len(block + (framed_chunks(chunks) + last + trailer) + tail) == Some(
            block.len(),
        ),
        scanned(None, false, block) == (length, true),
        !needs_rewrite(utf8_lossy(block)) || (length matches Some(n) && n
            > MAX_REWRITABLE_BODY_SIZE),
        forall|i: int| 0 <= i < chunks.len() ==> is_chunk(#[trigger] chunks[i]),
        announces(last, 0),
        is_line(trailer),
    ensures
        ({
            let body = framed_chunks(chunks) + last + trailer;
            let all = Rewriting::start().run(origin, proxy, block + body + tail);
            let more = Rewriting::start().run(origin, proxy, tail);
            &&& all.output == block + body + more.output
            &&& all.result == more.result
            &&& all.left == more.left
        }),
{
    let body = framed_chunks(chunks) + last + trailer;
    let stream = block + body + tail;
    lemma_header_block_is_read(Seq::empty(), None, false, origin, proxy, stream);
    assert(stream.take(block.len() as int) =~= block);
    assert(stream.skip(block.len() as int) =~= body + tail);
    assert(Seq::<u8>::empty() + block =~= block);
    lemma_chunked_body_is_relayed(ChunkPhase::Size, origin, proxy, body + tail);
    assert(body + tail =~= framed_chunks(chunks) + last + trailer + tail);
    lemma_chunks_are_passed(chunks, last, trailer, tail);
    assert((body + tail).take(body.len() as int) =~= body);
    let more = Rewriting::start().run(origin, proxy, tail);
    assert(block + (body + more.output) =~= block + body + more.output);
}

/// A chunked response whose type is rewritable, and whose chunks hold no
/// more than the limit, reaches the client as its header block and one
/// chunk: the data of all its chunks, put together, with the proxy's
/// address in place of the origin's, and then the chunk of size zero. The
/// header block is changed only where it declares a length and the
/// rewriting has changed the length. Then the next response follows.
pub proof fn lemma_chunked_text_response_is_rewritten(
    origin: Seq<char>,
    proxy: Seq<char>,
    block: Seq<u8>,
    length: Option<usize>,
    chunks: Seq<(Seq<u8>, Seq<u8>)>,
    last: Seq<u8>,
    trailer: Seq<u8>,
    tail: Seq<u8>,
)
    requires
        header_block_len(block + (framed_chunks(chunks) + last + trailer) + tail) == Some(
            block.len(),
        ),
        scanned(None, false, block) == (length, true),
        needs_rewrite(utf8_lossy(block)),
        length matches Some(n) ==> n <= MAX_REWRITABLE_BODY_SIZE,
        forall|i: int| 0 <= i < chunks.len() ==> is_chunk(#[trigger] chunks[i]),
        announces(last, 0),
        is_line(trailer),
        chunks_data(chunks).len() <= MAX_REWRITABLE_BODY_SIZE,
    ensures
        ({
            let body = framed_chunks(chunks) + last + trailer;
            let data = chunks_data(chunks);
            let all = Rewriting::start().run(origin, proxy, block + body + tail);
            let more = Rewriting::start().run(origin, proxy, tail);
            &&& all.output == rewritten_response(
                utf8_lossy(block),
                length is Some,
                true,
                data.len(),
                utf8_lossy(data),
                origin,
                proxy,
            ) + more.output
            &&& all.result == more.result
            &&& all.left == more.left
        }),
{
    let body = framed_chunks(chunks) + last + trailer;
    let data = chunks_data(chunks);
    let stream = block + body + tail;
    let none = Seq::<u8>::empty();
    lemma_header_block_is_read(none, None, false, origin, proxy, stream);
    assert(stream.take(block.len() as int) =~= block);
    assert(stream.skip(block.len() as int) =~= body + tail);
    assert(none + block =~= block);
    let decoder = Collecting::start(MAX_REWRITABLE_BODY_SIZE as nat);
    lemma_chunked_body_is_rewritten(
        utf8_lossy(block),
        length is Some,
        decoder,
        origin,
        proxy,
        body + tail,
    );
    assert(body + tail =~= framed_chunks(chunks) + last + trailer + tail);
    lemma_chunks_are_joined(chunks, last, trailer, none, MAX_REWRITABLE_BODY_SIZE as nat, tail);
    assert(none + data =~= data);
    let then = (Rewriting::BodyChunked {
        headers: utf8_lossy(block),
        length_known: length is Some,
        decoder,
    }).run(origin, proxy, body + tail);
    assert(none + then.output =~= then.output);
}

} // verus!
