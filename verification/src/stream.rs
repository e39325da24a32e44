//! A byte stream held in memory, and the three ways in which the proxy
//! reads from a stream: a line, at most so many bytes, exactly so many bytes.

use vstd::prelude::*;

verus! {

/// Length of the first segment of `s`: everything up to the first `delim`,
/// the `delim` included, or all of `s` where it holds none.
pub open spec fn segment_len<T>(s: Seq<T>, delim: T) -> nat
    decreases s.len(),
{
    if s.len() == 0 {
        0
    } else if s[0] == delim {
        1
    } else {
        1 + segment_len(s.skip(1), delim)
    }
}

/// A segment is no longer than the sequence, and not empty unless the
/// sequence is.
pub proof fn lemma_segment_len_bounds<T>(s: Seq<T>, delim: T)
    ensures
        segment_len(s, delim) <= s.len(),
        s.len() > 0 ==> segment_len(s, delim) > 0,
    decreases s.len(),
{
    if s.len() > 0 && s[0] != delim {
        lemma_segment_len_bounds(s.skip(1), delim);
    }
}

/// A segment that starts with `n` elements other than `delim` is `n` longer
/// than the segment that follows them.
pub proof fn lemma_segment_len_skip<T>(s: Seq<T>, delim: T, n: int)
    requires
        0 <= n <= s.len(),
        forall|k: int| 0 <= k < n ==> s[k] != delim,
    ensures
        segment_len(s, delim) == n + segment_len(s.skip(n), delim),
    decreases n,
{
    if n == 0 {
        assert(s.skip(0) =~= s);
    } else {
        lemma_segment_len_skip(s.skip(1), delim, n - 1);
        assert(s.skip(1).skip(n - 1) =~= s.skip(n));
    }
}

/// No element of a segment but its last is the `delim`.
pub proof fn lemma_segment_interior<T>(s: Seq<T>, delim: T)
    ensures
        forall|k: int| 0 <= k < segment_len(s, delim) - 1 ==> s[k] != delim,
        0 < segment_len(s, delim) < s.len() ==> s[segment_len(s, delim) - 1] == delim,
    decreases s.len(),
{
    if s.len() > 0 && s[0] != delim {
        lemma_segment_interior(s.skip(1), delim);
        lemma_segment_len_bounds(s.skip(1), delim);
        assert forall|k: int| 0 <= k < segment_len(s, delim) - 1 implies s[k] != delim by {
            if k > 0 {
                assert(s[k] == s.skip(1)[k - 1]);
            }
        }
        if segment_len(s, delim) < s.len() {
            assert(s[segment_len(s, delim) - 1] == s.skip(1)[segment_len(s.skip(1), delim) - 1]);
        }
    }
}

/// A prefix that holds the whole first segment has the same first segment.
pub proof fn lemma_segment_len_of_prefix<T>(s: Seq<T>, delim: T, m: int)
    requires
        segment_len(s, delim) <= m <= s.len(),
    ensures
        segment_len(s.take(m), delim) == segment_len(s, delim),
    decreases s.len(),
{
    if s.len() > 0 && m > 0 && s[0] != delim {
        lemma_segment_len_of_prefix(s.skip(1), delim, m - 1);
        assert(s.take(m).skip(1) =~= s.skip(1).take(m - 1));
    }
}

/// The line feed that ends a line.
pub const LINE_FEED: u8 = 10;

/// The most bytes that are read at a time of a body that is passed through.
pub const RELAY_BUFFER_SIZE: usize = 8192;

/// The largest read of a part that is passed through and has `remaining`
/// bytes to come.
pub open spec fn relay_read(remaining: usize) -> usize {
    if remaining <= RELAY_BUFFER_SIZE {
        remaining
    } else {
        RELAY_BUFFER_SIZE
    }
}

/// The bytes that are still to come after `n` of `remaining` have come.
pub open spec fn still_to_come(remaining: usize, n: nat) -> usize {
    if n >= remaining {
        0
    } else {
        (remaining - n) as usize
    }
}

/// The largest read of a part that is passed through.
pub fn relay_limit(remaining: usize) -> (n: usize)
    ensures
        n == relay_read(remaining),
{
    if remaining <= RELAY_BUFFER_SIZE {
        remaining
    } else {
        RELAY_BUFFER_SIZE
    }
}

/// The bytes that are still to come after `n` have come.
pub fn left_of(remaining: usize, n: usize) -> (left: usize)
    ensures
        left == still_to_come(remaining, n as nat),
{
    if n >= remaining {
        0
    } else {
        remaining - n
    }
}

/// What a reader is asked for next.
#[derive(Debug, Clone, Copy, PartialEq, Eq, Structural)]
pub enum Wanted {
    /// Everything up to and including the next line feed, or up to the end
    /// of the stream. Nothing at all means that the stream has ended.
    Line,
    /// At least one and at most so many bytes. Nothing at all means that the
    /// stream has ended.
    UpTo(usize),
    /// Exactly so many bytes; a stream that ends before them has failed.
    Exact(usize),
}

/// What a stream that still holds `rest` hands out when asked for `wanted`,
/// reading as much as it can; `None` where it ends before the bytes asked for.
pub open spec fn supplied(rest: Seq<u8>, wanted: Wanted) -> Option<Seq<u8>> {
    match wanted {
        Wanted::Line => Some(rest.take(segment_len(rest, LINE_FEED) as int)),
        Wanted::UpTo(n) => Some(
            rest.take(
                if n <= rest.len() {
                    n as int
                } else {
                    rest.len() as int
                },
            ),
        ),
        Wanted::Exact(n) => if n <= rest.len() {
            Some(rest.take(n as int))
        } else {
            None
        },
    }
}

/// What the stream still holds afterwards.
pub open spec fn left_after(rest: Seq<u8>, wanted: Wanted) -> Seq<u8> {
    match supplied(rest, wanted) {
        Some(data) => rest.skip(data.len() as int),
        None => Seq::empty(),
    }
}

/// Appends `tail` to `out`.
pub fn push_bytes(out: &mut Vec<u8>, tail: &[u8])
    ensures
        final(out)@ == old(out)@ + tail@,
{
    let mut i: usize = 0;
    while i < tail.len()
        invariant
            i <= tail.len(),
            out@ == old(out)@ + tail@.take(i as int),
        decreases tail.len() - i,
    {
        out.push(tail[i]);
        i += 1;
        assert(out@ =~= old(out)@ + tail@.take(i as int));
    }
    assert(tail@.take(i as int) =~= tail@);
}

/// A byte stream in memory that is read from front to back.
pub struct ByteReader {
    data: Vec<u8>,
    pos: usize,
}

impl ByteReader {
    #[verifier::type_invariant]
    spec fn within_data(self) -> bool {
        self.pos <= self.data@.len()
    }

    /// The bytes that have not been read yet.
    pub closed spec fn remaining(self) -> Seq<u8> {
        self.data@.skip(self.pos as int)
    }

    /// A reader at the start of `data`.
    pub fn new(data: Vec<u8>) -> (reader: ByteReader)
        ensures
            reader.remaining() == data@,
    {
        assert(data@.skip(0) =~= data@);
        ByteReader { data, pos: 0 }
    }

    /// Number of bytes that have not been read yet.
    pub fn remaining_len(&self) -> (n: usize)
        ensures
            n == self.remaining().len(),
    {
        proof {
            use_type_invariant(self);
        }
        self.data.len() - self.pos
    }

    fn take_bytes(&mut self, n: usize) -> (out: Vec<u8>)
        requires
            n <= old(self).remaining().len(),
        ensures
            out@ == old(self).remaining().take(n as int),
            final(self).remaining() == old(self).remaining().skip(n as int),
    {
        proof {
            use_type_invariant(&*self);
        }
        let mut out: Vec<u8> = Vec::new();
        let start: usize = self.pos;
        let total: usize = self.data.len();
        let mut i: usize = 0;
        while i < n
            invariant
                i <= n,
                start + n <= total,
                total == self.data@.len(),
                out@ == self.data@.subrange(start as int, start + i),
            decreases n - i,
        {
            out.push(self.data[start + i]);
            i += 1;
            assert(self.data@.subrange(start as int, start + i) =~= self.data@.subrange(
                start as int,
                start + i - 1,
            ).push(self.data@[start + i - 1]));
        }
        self.pos = start + n;
        assert(out@ =~= old(self).remaining().take(n as int));
        assert(self.remaining() =~= old(self).remaining().skip(n as int));
        out
    }

    /// Reads up to and including the next `delim`, or to the end.
    pub fn read_until(&mut self, delim: u8) -> (out: Vec<u8>)
        ensures
            out@ == old(self).remaining().take(segment_len(old(self).remaining(), delim) as int),
            final(self).remaining() == old(self).remaining().skip(out@.len() as int),
            out@.len() == segment_len(old(self).remaining(), delim),
    {
        proof {
            use_type_invariant(&*self);
        }
        let ghost rest = self.remaining();
        let start: usize = self.pos;
        let mut end: usize = start;
        while end < self.data.len() && self.data[end] != delim
            invariant
                start <= end <= self.data@.len(),
                start == self.pos,
                rest == self.data@.skip(start as int),
                forall|k: int| 0 <= k < end - start ==> rest[k] != delim,
            decreases self.data@.len() - end,
        {
            end += 1;
        }
        if end < self.data.len() {
            end += 1;
        }
        proof {
            let n = end - start;
            if n > 0 && rest[n - 1] == delim {
                lemma_segment_len_skip(rest, delim, n - 1);
            } else {
                lemma_segment_len_skip(rest, delim, n);
            }
            lemma_segment_len_bounds(rest, delim);
        }
        self.take_bytes(end - start)
    }

    /// Reads at most `limit` bytes: fewer only where the stream ends.
    pub fn read(&mut self, limit: usize) -> (out: Vec<u8>)
        ensures
            supplied(old(self).remaining(), Wanted::UpTo(limit)) == Some(out@),
            final(self).remaining() == old(self).remaining().skip(out@.len() as int),
    {
        let available = self.remaining_len();
        let n: usize = if limit <= available {
            limit
        } else {
            available
        };
        self.take_bytes(n)
    }

    /// Reads exactly `n` bytes. Where the stream ends before them, the result
    /// is `None` and nothing is left to read.
    pub fn read_exact(&mut self, n: usize) -> (out: Option<Vec<u8>>)
        ensures
            match out {
                Some(bytes) => supplied(old(self).remaining(), Wanted::Exact(n)) == Some(bytes@),
                None => supplied(old(self).remaining(), Wanted::Exact(n)) is None,
            },
            final(self).remaining() == left_after(old(self).remaining(), Wanted::Exact(n)),
    {
        let available = self.remaining_len();
        if n <= available {
            Some(self.take_bytes(n))
        } else {
            let _ = self.take_bytes(available);
            None
        }
    }

    /// Reads everything that is left.
    pub fn read_to_end(&mut self) -> (out: Vec<u8>)
        ensures
            out@ == old(self).remaining(),
            final(self).remaining() == Seq::<u8>::empty(),
    {
        let available = self.remaining_len();
        let out = self.take_bytes(available);
        assert(old(self).remaining().take(available as int) =~= old(self).remaining());
        out
    }

    /// Hands out what is `wanted`, as [`supplied`] defines it.
    pub fn supply(&mut self, wanted: Wanted) -> (out: Option<Vec<u8>>)
        ensures
            match out {
                Some(bytes) => supplied(old(self).remaining(), wanted) == Some(bytes@),
                None => supplied(old(self).remaining(), wanted) is None,
            },
            final(self).remaining() == left_after(old(self).remaining(), wanted),
    {
        match wanted {
            Wanted::Line => Some(self.read_until(LINE_FEED)),
            Wanted::UpTo(n) => Some(self.read(n)),
            Wanted::Exact(n) => self.read_exact(n),
        }
    }
}

} // verus!
