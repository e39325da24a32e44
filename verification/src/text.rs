//! Character-level text operations shared by the header and packet code.
//!
//! Every operation has a mathematical definition over `Seq<char>` and an
//! executable counterpart over `[char]` that is proved equal to it.

use crate::stream::{
    lemma_segment_interior, lemma_segment_len_bounds, lemma_segment_len_skip, segment_len,
};
use vstd::prelude::*;

verus! {

/// `String::push` appends exactly one character.
pub assume_specification[ String::push ](s: &mut String, c: char)
    ensures
        final(s)@ == old(s)@.push(c),
;

/// ASCII lower-casing of one character; everything outside `A..=Z` is kept.
pub open spec fn lower_char(c: char) -> char {
    if 'A' <= c && c <= 'Z' {
        ((c as u8) + 32) as char
    } else {
        c
    }
}

/// ASCII upper-casing of one character; everything outside `a..=z` is kept.
pub open spec fn upper_char(c: char) -> char {
    if 'a' <= c && c <= 'z' {
        ((c as u8) - 32) as char
    } else {
        c
    }
}

/// ASCII lower-casing of a text.
pub open spec fn lower(s: Seq<char>) -> Seq<char> {
    Seq::new(s.len(), |i: int| lower_char(s[i]))
}

/// ASCII upper-casing of a text.
pub open spec fn upper(s: Seq<char>) -> Seq<char> {
    Seq::new(s.len(), |i: int| upper_char(s[i]))
}

/// The characters that `char::is_whitespace` accepts (Unicode `White_Space`).
pub open spec fn is_whitespace(c: char) -> bool {
    ||| ('\u{9}' <= c && c <= '\u{D}')
    ||| c == ' '
    ||| c == '\u{85}'
    ||| c == '\u{A0}'
    ||| c == '\u{1680}'
    ||| ('\u{2000}' <= c && c <= '\u{200A}')
    ||| c == '\u{2028}'
    ||| c == '\u{2029}'
    ||| c == '\u{202F}'
    ||| c == '\u{205F}'
    ||| c == '\u{3000}'
}

/// `s` without its leading whitespace.
pub open spec fn trim_start(s: Seq<char>) -> Seq<char>
    decreases s.len(),
{
    if s.len() > 0 && is_whitespace(s[0]) {
        trim_start(s.skip(1))
    } else {
        s
    }
}

/// `s` without its trailing whitespace.
pub open spec fn trim_end(s: Seq<char>) -> Seq<char>
    decreases s.len(),
{
    if s.len() > 0 && is_whitespace(s.last()) {
        trim_end(s.drop_last())
    } else {
        s
    }
}

/// `s` without leading and trailing whitespace.
pub open spec fn trim(s: Seq<char>) -> Seq<char> {
    trim_end(trim_start(s))
}

/// `p` occurs in `s` starting at index `i`.
pub open spec fn occurs_at(s: Seq<char>, p: Seq<char>, i: int) -> bool {
    0 <= i && i + p.len() <= s.len() && s.subrange(i, i + p.len()) == p
}

/// `p` occurs somewhere in `s`.
pub open spec fn contains(s: Seq<char>, p: Seq<char>) -> bool {
    exists|i: int| occurs_at(s, p, i)
}

/// Length of the first line of `s`, its `\n` included when there is one.
pub open spec fn line_len(s: Seq<char>) -> nat {
    segment_len(s, '\n')
}

/// A raw line without its terminator: a final `\n` is dropped, and then one
/// `\r` that stood before it.
pub open spec fn strip_line_ending(raw: Seq<char>) -> Seq<char> {
    if raw.len() > 0 && raw.last() == '\n' {
        let body = raw.drop_last();
        if body.len() > 0 && body.last() == '\r' {
            body.drop_last()
        } else {
            body
        }
    } else {
        raw
    }
}

/// The lines of `s`, split at `\n`, each without its `\n` or `\r\n`.
/// A text that ends in a line terminator has no empty last line.
pub open spec fn lines(s: Seq<char>) -> Seq<Seq<char>>
    decreases s.len(),
{
    if s.len() == 0 {
        Seq::empty()
    } else {
        let n = line_len(s) as int;
        proof {
            lemma_segment_len_bounds(s, '\n');
        }
        seq![strip_line_ending(s.take(n))] + lines(s.skip(n))
    }
}

/// The text between the first and the second `:` of `s` (to the end where
/// there is no second one); empty where `s` has no `:`.
pub open spec fn colon_field(s: Seq<char>) -> Seq<char> {
    let rest = after_colon(s);
    rest.take(until_colon(rest) as int)
}

/// What follows the first `:` of `s`; empty where there is none.
pub open spec fn after_colon(s: Seq<char>) -> Seq<char>
    decreases s.len(),
{
    if s.len() == 0 {
        s
    } else if s[0] == ':' {
        s.skip(1)
    } else {
        after_colon(s.skip(1))
    }
}

/// Number of characters before the first `:` of `s`.
pub open spec fn until_colon(s: Seq<char>) -> nat
    decreases s.len(),
{
    if s.len() == 0 || s[0] == ':' {
        0
    } else {
        1 + until_colon(s.skip(1))
    }
}

/// Every occurrence of `from` in `s` replaced by `to`, scanning from the
/// left and never matching inside an earlier match. An empty `from` matches
/// before every character and at the end.
pub open spec fn replace_all(s: Seq<char>, from: Seq<char>, to: Seq<char>) -> Seq<char>
    decreases s.len(),
{
    if from.len() == 0 {
        if s.len() == 0 {
            to
        } else {
            to + seq![s[0]] + replace_all(s.skip(1), from, to)
        }
    } else if s.len() < from.len() {
        s
    } else if s.take(from.len() as int) == from {
        to + replace_all(s.skip(from.len() as int), from, to)
    } else {
        seq![s[0]] + replace_all(s.skip(1), from, to)
    }
}

/// Lower-cases an ASCII letter and keeps every other character.
pub fn to_lower_char(c: char) -> (r: char)
    ensures
        r == lower_char(c),
{
    if 'A' <= c && c <= 'Z' {
        ((c as u8) + 32) as char
    } else {
        c
    }
}

/// Upper-cases an ASCII letter and keeps every other character.
pub fn to_upper_char(c: char) -> (r: char)
    ensures
        r == upper_char(c),
{
    if 'a' <= c && c <= 'z' {
        ((c as u8) - 32) as char
    } else {
        c
    }
}

/// Whether a character is whitespace.
pub fn char_is_whitespace(c: char) -> (b: bool)
    ensures
        b == is_whitespace(c),
{
    ('\u{9}' <= c && c <= '\u{D}') || c == ' ' || c == '\u{85}' || c == '\u{A0}' || c
        == '\u{1680}' || ('\u{2000}' <= c && c <= '\u{200A}') || c == '\u{2028}' || c
        == '\u{2029}' || c == '\u{202F}' || c == '\u{205F}' || c == '\u{3000}'
}

/// The characters of a string slice.
pub fn chars_of(s: &str) -> (v: Vec<char>)
    ensures
        v@ == s@,
{
    let mut v: Vec<char> = Vec::new();
    for c in it: s.chars()
        invariant
            it.seq() == s@,
            v@.len() == it.index(),
            forall|i: int| 0 <= i < v@.len() ==> v@[i] == s@[i],
    {
        v.push(c);
    }
    assert(v@ =~= s@);
    v
}

/// The string made of the given characters.
pub fn string_of(v: &[char]) -> (s: String)
    ensures
        s@ == v@,
{
    let mut s = String::new();
    let mut i: usize = 0;
    while i < v.len()
        invariant
            i <= v.len(),
            s@ == v@.take(i as int),
        decreases v.len() - i,
    {
        s.push(v[i]);
        i += 1;
        assert(v@.take(i as int) =~= v@.take(i as int - 1).push(v@[i as int - 1]));
    }
    assert(v@.take(i as int) =~= v@);
    s
}

/// A copy of `s[from..to]`.
pub fn copy_range(s: &[char], from: usize, to: usize) -> (v: Vec<char>)
    requires
        from <= to <= s.len(),
    ensures
        v@ == s@.subrange(from as int, to as int),
{
    let mut v: Vec<char> = Vec::new();
    let mut i: usize = from;
    while i < to
        invariant
            from <= i <= to <= s.len(),
            v@ == s@.subrange(from as int, i as int),
        decreases to - i,
    {
        v.push(s[i]);
        i += 1;
        assert(s@.subrange(from as int, i as int) =~= s@.subrange(from as int, i as int - 1).push(
            s@[i as int - 1],
        ));
    }
    v
}

/// Appends `tail` to `out`.
pub fn push_all(out: &mut Vec<char>, tail: &[char])
    ensures
        final(out)@ == old(out)@ + tail@,
{
    let mut i: usize = 0;
    while i < tail.len()
        invariant
            i <= tail.len(),
            out@ == old(out)@ + tail@.take(i as int),
        decreases tail.len() - i,
    {
        out.push(tail[i]);
        i += 1;
        assert(tail@.take(i as int) =~= tail@.take(i as int - 1).push(tail@[i as int - 1]));
        assert(out@ =~= old(out)@ + tail@.take(i as int));
    }
    assert(tail@.take(i as int) =~= tail@);
}

/// The text with its ASCII letters in lower case.
pub fn to_lower(s: &[char]) -> (v: Vec<char>)
    ensures
        v@ == lower(s@),
{
    let mut v: Vec<char> = Vec::new();
    let mut i: usize = 0;
    while i < s.len()
        invariant
            i <= s.len(),
            v@.len() == i,
            forall|k: int| 0 <= k < i ==> v@[k] == lower_char(s@[k]),
        decreases s.len() - i,
    {
        v.push(to_lower_char(s[i]));
        i += 1;
    }
    assert(v@ =~= lower(s@));
    v
}

/// The text with its ASCII letters in upper case.
pub fn to_upper(s: &[char]) -> (v: Vec<char>)
    ensures
        v@ == upper(s@),
{
    let mut v: Vec<char> = Vec::new();
    let mut i: usize = 0;
    while i < s.len()
        invariant
            i <= s.len(),
            v@.len() == i,
            forall|k: int| 0 <= k < i ==> v@[k] == upper_char(s@[k]),
        decreases s.len() - i,
    {
        v.push(to_upper_char(s[i]));
        i += 1;
    }
    assert(v@ =~= upper(s@));
    v
}

/// Whether `p` occurs in `s` at index `at`.
pub fn matches_at(s: &[char], p: &[char], at: usize) -> (b: bool)
    requires
        at <= s.len(),
    ensures
        b == occurs_at(s@, p@, at as int),
{
    if p.len() > s.len() - at {
        return false;
    }
    let mut k: usize = 0;
    while k < p.len()
        invariant
            k <= p.len(),
            at + p.len() <= s.len(),
            forall|j: int| 0 <= j < k ==> s@[at + j] == p@[j],
        decreases p.len() - k,
    {
        if s[at + k] != p[k] {
            assert(s@.subrange(at as int, at + p.len())[k as int] != p@[k as int]);
            return false;
        }
        k += 1;
    }
    assert(s@.subrange(at as int, at + p.len()) =~= p@);
    true
}

/// Whether `s` begins with `p`.
pub fn starts_with(s: &[char], p: &[char]) -> (b: bool)
    ensures
        b == p@.is_prefix_of(s@),
{
    matches_at(s, p, 0)
}

/// Whether `p` occurs in `s`.
pub fn contains_seq(s: &[char], p: &[char]) -> (b: bool)
    ensures
        b == contains(s@, p@),
{
    if p.len() > s.len() {
        return false;
    }
    let last: usize = s.len() - p.len();
    let mut i: usize = 0;
    loop
        invariant
            last == s.len() - p.len(),
            i <= last,
            forall|j: int| 0 <= j < i ==> !occurs_at(s@, p@, j),
        decreases last - i,
    {
        if matches_at(s, p, i) {
            return true;
        }
        if i == last {
            return false;
        }
        i += 1;
    }
}

/// The views of a vector of character vectors.
pub open spec fn views(v: Seq<Vec<char>>) -> Seq<Seq<char>> {
    Seq::new(v.len(), |i: int| v[i]@)
}

/// The text without the whitespace at its beginning and at its end.
pub fn trim_chars(s: &[char]) -> (v: Vec<char>)
    ensures
        v@ == trim(s@),
{
    let mut start: usize = 0;
    assert(s@.skip(0) =~= s@);
    while start < s.len() && char_is_whitespace(s[start])
        invariant
            start <= s.len(),
            trim_start(s@) == trim_start(s@.skip(start as int)),
        decreases s.len() - start,
    {
        assert(s@.skip(start as int).skip(1) =~= s@.skip(start + 1));
        start += 1;
    }
    assert(trim_start(s@) == s@.skip(start as int));
    let mut end: usize = s.len();
    assert(s@.subrange(start as int, end as int) =~= s@.skip(start as int));
    while end > start && char_is_whitespace(s[end - 1])
        invariant
            start <= end <= s.len(),
            trim(s@) == trim_end(s@.subrange(start as int, end as int)),
        decreases end,
    {
        assert(s@.subrange(start as int, end as int).drop_last() =~= s@.subrange(
            start as int,
            end - 1,
        ));
        end -= 1;
    }
    copy_range(s, start, end)
}

/// The lines of the text, without their line endings.
pub fn split_lines(s: &[char]) -> (v: Vec<Vec<char>>)
    ensures
        views(v@) == lines(s@),
{
    let mut out: Vec<Vec<char>> = Vec::new();
    let mut pos: usize = 0;
    assert(s@.skip(0) =~= s@);
    assert(views(out@) =~= Seq::<Seq<char>>::empty());
    while pos < s.len()
        invariant
            pos <= s.len(),
            lines(s@) == views(out@) + lines(s@.skip(pos as int)),
        decreases s.len() - pos,
    {
        let ghost rest = s@.skip(pos as int);
        let mut end: usize = pos;
        assert(s@.skip(end as int) =~= rest);
        while end < s.len() && s[end] != '\n'
            invariant
                pos <= end <= s.len(),
                rest == s@.skip(pos as int),
                line_len(rest) == (end - pos) + line_len(s@.skip(end as int)),
                forall|k: int| pos <= k < end ==> s@[k] != '\n',
            decreases s.len() - end,
        {
            assert(s@.skip(end as int).skip(1) =~= s@.skip(end + 1));
            end += 1;
        }
        let mut next: usize = end;
        let mut stop: usize = end;
        if end < s.len() {
            next = end + 1;
            if stop > pos && s[stop - 1] == '\r' {
                stop -= 1;
            }
        }
        assert(line_len(rest) == next - pos);
        let line = copy_range(s, pos, stop);
        proof {
            let raw = rest.take(next - pos);
            assert(raw =~= s@.subrange(pos as int, next as int));
            if end < s.len() {
                assert(raw.last() == '\n');
                assert(raw.drop_last() =~= s@.subrange(pos as int, end as int));
                if end > pos && s@[end - 1] == '\r' {
                    assert(raw.drop_last().drop_last() =~= s@.subrange(pos as int, end - 1));
                }
            } else {
                assert(raw.len() > 0 ==> raw.last() == s@[end - 1]);
            }
            assert(line@ == strip_line_ending(raw));
            assert(rest.skip(next - pos) =~= s@.skip(next as int));
            assert(views(out@.push(line)) =~= views(out@) + seq![line@]);
        }
        out.push(line);
        pos = next;
    }
    assert(lines(s@.skip(pos as int)) =~= Seq::<Seq<char>>::empty());
    out
}

/// What stands between the first and the second colon of the text.
pub fn colon_field_of(s: &[char]) -> (v: Vec<char>)
    ensures
        v@ == colon_field(s@),
{
    let mut a: usize = 0;
    assert(s@.skip(0) =~= s@);
    while a < s.len() && s[a] != ':'
        invariant
            a <= s.len(),
            after_colon(s@) == after_colon(s@.skip(a as int)),
        decreases s.len() - a,
    {
        assert(s@.skip(a as int).skip(1) =~= s@.skip(a + 1));
        a += 1;
    }
    if a == s.len() {
        assert(colon_field(s@) =~= Seq::<char>::empty());
        return Vec::new();
    }
    let from: usize = a + 1;
    assert(s@.skip(a as int).skip(1) =~= s@.skip(from as int));
    let ghost rest = s@.skip(from as int);
    let mut b: usize = from;
    while b < s.len() && s[b] != ':'
        invariant
            from <= b <= s.len(),
            rest == s@.skip(from as int),
            until_colon(rest) == (b - from) + until_colon(s@.skip(b as int)),
        decreases s.len() - b,
    {
        assert(s@.skip(b as int).skip(1) =~= s@.skip(b + 1));
        b += 1;
    }
    assert(rest.take(b - from) =~= s@.subrange(from as int, b as int));
    copy_range(s, from, b)
}

/// The text with every occurrence of `from` replaced by `to`.
pub fn replace(s: &[char], from: &[char], to: &[char]) -> (v: Vec<char>)
    ensures
        v@ == replace_all(s@, from@, to@),
{
    let mut out: Vec<char> = Vec::new();
    let mut i: usize = 0;
    assert(s@.skip(0) =~= s@);
    assert(out@ + replace_all(s@, from@, to@) =~= replace_all(s@, from@, to@));
    if from.len() == 0 {
        while i < s.len()
            invariant
                i <= s.len(),
                from@.len() == 0,
                out@ + replace_all(s@.skip(i as int), from@, to@) == replace_all(
                    s@,
                    from@,
                    to@,
                ),
            decreases s.len() - i,
        {
            let ghost before = out@;
            let ghost rest = s@.skip(i as int);
            push_all(&mut out, to);
            out.push(s[i]);
            assert(rest.skip(1) =~= s@.skip(i + 1));
            assert(out@ + replace_all(rest.skip(1), from@, to@) =~= before + (to@ + seq![rest[0]]
                + replace_all(rest.skip(1), from@, to@)));
            i += 1;
        }
        let ghost before = out@;
        push_all(&mut out, to);
        assert(out@ =~= before + replace_all(s@.skip(i as int), from@, to@));
        return out;
    }
    while i < s.len()
        invariant
            i <= s.len(),
            from@.len() > 0,
            out@ + replace_all(s@.skip(i as int), from@, to@) == replace_all(s@, from@, to@),
        decreases s.len() - i,
    {
        let ghost before = out@;
        let ghost rest = s@.skip(i as int);
        assert(rest.len() >= from@.len() ==> rest.take(from@.len() as int) =~= s@.subrange(
            i as int,
            i + from@.len(),
        ));
        if matches_at(s, from, i) {
            push_all(&mut out, to);
            assert(rest.skip(from@.len() as int) =~= s@.skip(i + from@.len()));
            assert(out@ + replace_all(rest.skip(from@.len() as int), from@, to@) =~= before + (to@
                + replace_all(rest.skip(from@.len() as int), from@, to@)));
            i += from.len();
        } else {
            out.push(s[i]);
            assert(rest.skip(1) =~= s@.skip(i + 1));
            proof {
                if rest.len() < from@.len() {
                    lemma_replace_short(rest.skip(1), from@, to@);
                    assert(rest =~= seq![rest[0]] + rest.skip(1));
                }
            }
            assert(out@ + replace_all(rest.skip(1), from@, to@) =~= before + (seq![rest[0]]
                + replace_all(rest.skip(1), from@, to@)));
            i += 1;
        }
    }
    assert(out@ + replace_all(s@.skip(i as int), from@, to@) =~= out@);
    out
}

/// A text shorter than a non-empty pattern is left as it is.
pub proof fn lemma_replace_short(s: Seq<char>, from: Seq<char>, to: Seq<char>)
    requires
        s.len() < from.len(),
    ensures
        replace_all(s, from, to) == s,
{
}

/// Whether two string slices hold the same text.
pub fn same_text(a: &str, b: &str) -> (r: bool)
    ensures
        r == (a@ == b@),
{
    let x = chars_of(a);
    let y = chars_of(b);
    if x.len() != y.len() {
        return false;
    }
    let r = matches_at(x.as_slice(), y.as_slice(), 0);
    assert(x@.subrange(0, y@.len() as int) =~= x@);
    r
}

/// Upper-casing a second time changes nothing.
pub proof fn lemma_upper_idempotent(s: Seq<char>)
    ensures
        upper(upper(s)) == upper(s),
{
    assert(upper(upper(s)) =~= upper(s));
}

/// Whether a text holds no line feed.
pub open spec fn is_one_line(s: Seq<char>) -> bool {
    forall|k: int| 0 <= k < s.len() ==> s[k] != '\n'
}

/// No line of a text holds a line feed.
pub proof fn lemma_lines_are_lines(s: Seq<char>)
    ensures
        forall|i: int| 0 <= i < lines(s).len() ==> is_one_line(#[trigger] lines(s)[i]),
    decreases s.len(),
{
    if s.len() > 0 {
        let n = line_len(s) as int;
        lemma_segment_len_bounds(s, '\n');
        lemma_segment_interior(s, '\n');
        let raw = s.take(n);
        let first = strip_line_ending(raw);
        assert(is_one_line(first)) by {
            assert forall|k: int| 0 <= k < first.len() implies first[k] != '\n' by {
                assert(first[k] == s[k]);
                if k == n - 1 {
                    assert(raw.last() != '\n');
                    assert(raw.last() == s[n - 1]);
                }
            }
        }
        lemma_lines_are_lines(s.skip(n));
        let rest = lines(s.skip(n));
        assert forall|i: int| 0 <= i < lines(s).len() implies is_one_line(
            #[trigger] lines(s)[i],
        ) by {
            if i > 0 {
                assert(lines(s)[i] == rest[i - 1]);
            }
        }
    }
}

/// What follows the first colon of a text that holds `n` characters other
/// than a colon and then a colon.
pub proof fn lemma_after_colon(s: Seq<char>, n: int)
    requires
        0 <= n < s.len(),
        forall|k: int| 0 <= k < n ==> s[k] != ':',
        s[n] == ':',
    ensures
        after_colon(s) == s.skip(n + 1),
    decreases n,
{
    if n > 0 {
        lemma_after_colon(s.skip(1), n - 1);
        assert(s.skip(1).skip(n) =~= s.skip(n + 1));
    }
}

/// A text without a colon has all its characters before the first colon.
pub proof fn lemma_until_colon_all(s: Seq<char>)
    requires
        forall|k: int| 0 <= k < s.len() ==> s[k] != ':',
    ensures
        until_colon(s) == s.len(),
    decreases s.len(),
{
    if s.len() > 0 {
        lemma_until_colon_all(s.skip(1));
    }
}

/// A text in which a pattern does not occur is left as it is.
pub proof fn lemma_replace_without_match(s: Seq<char>, from: Seq<char>, to: Seq<char>)
    requires
        from.len() > 0,
        !contains(s, from),
    ensures
        replace_all(s, from, to) == s,
    decreases s.len(),
{
    if s.len() >= from.len() {
        if s.take(from.len() as int) == from {
            assert(s.subrange(0, from.len() as int) =~= s.take(from.len() as int));
            assert(occurs_at(s, from, 0));
        }
        let rest = s.skip(1);
        if contains(rest, from) {
            let i = choose|i: int| occurs_at(rest, from, i);
            assert(s.subrange(i + 1, i + 1 + from.len()) =~= rest.subrange(i, i + from.len()));
            assert(occurs_at(s, from, i + 1));
        }
        lemma_replace_without_match(rest, from, to);
        assert(seq![s[0]] + rest =~= s);
    }
}

/// The lines in order, each followed by `\r\n`.
pub open spec fn join_lines(all: Seq<Seq<char>>) -> Seq<char>
    decreases all.len(),
{
    if all.len() == 0 {
        Seq::empty()
    } else {
        all[0] + "\r\n"@ + join_lines(all.skip(1))
    }
}

/// Adding a line at the end of the lines adds it, with its `\r\n`, at the
/// end of the text.
pub proof fn lemma_join_lines_push(all: Seq<Seq<char>>, line: Seq<char>)
    ensures
        join_lines(all.push(line)) == join_lines(all) + line + "\r\n"@,
    decreases all.len(),
{
    if all.len() == 0 {
        let one = all.push(line);
        assert(one.skip(1) =~= Seq::<Seq<char>>::empty());
        assert(join_lines(one.skip(1)) =~= Seq::<char>::empty());
        assert(join_lines(all) =~= Seq::<char>::empty());
        assert(join_lines(one) == one[0] + "\r\n"@ + join_lines(one.skip(1)));
        assert(join_lines(one) =~= join_lines(all) + line + "\r\n"@);
    } else {
        lemma_join_lines_push(all.skip(1), line);
        assert(all.push(line).skip(1) =~= all.skip(1).push(line));
        assert(join_lines(all.push(line)) =~= join_lines(all) + line + "\r\n"@);
    }
}

/// Splitting what was joined gives the lines back, where each of them is
/// one line.
pub proof fn lemma_lines_of_joined(all: Seq<Seq<char>>)
    requires
        forall|i: int| 0 <= i < all.len() ==> is_one_line(#[trigger] all[i]),
    ensures
        lines(join_lines(all)) == all,
    decreases all.len(),
{
    reveal_strlit("\r\n");
    if all.len() == 0 {
        assert(lines(join_lines(all)) =~= all);
    } else {
        let first = all[0];
        let rest = all.skip(1);
        let text = join_lines(all);
        let n = first.len() + 2;
        assert(is_one_line(first));
        assert forall|k: int| 0 <= k < first.len() + 1 implies text[k] != '\n' by {
            if k < first.len() {
                assert(text[k] == first[k]);
            }
        }
        lemma_segment_len_skip(text, '\n', first.len() as int + 1);
        assert(text.skip(first.len() as int + 1)[0] == '\n');
        assert(line_len(text) == n);
        let raw = text.take(n as int);
        assert(raw =~= first + "\r\n"@);
        assert(raw.drop_last().drop_last() =~= first);
        assert(strip_line_ending(raw) == first);
        assert(text.skip(n as int) =~= join_lines(rest));
        assert forall|i: int| 0 <= i < rest.len() implies is_one_line(#[trigger] rest[i]) by {
            assert(rest[i] == all[i + 1]);
        }
        lemma_lines_of_joined(rest);
        assert(lines(text) =~= all);
    }
}

/// Number of characters of `s` before the first `c`; all of them where `s`
/// holds no `c`.
pub open spec fn until_char(s: Seq<char>, c: char) -> nat
    decreases s.len(),
{
    if s.len() == 0 || s[0] == c {
        0
    } else {
        1 + until_char(s.skip(1), c)
    }
}

/// What stands in `s` before the first `c`; all of `s` where it holds no `c`.
pub open spec fn before_char(s: Seq<char>, c: char) -> Seq<char> {
    s.take(until_char(s, c) as int)
}

/// What stands in `s` before the first `c`.
pub fn before_char_of(s: &[char], c: char) -> (v: Vec<char>)
    ensures
        v@ == before_char(s@, c),
{
    let mut end: usize = 0;
    assert(s@.skip(0) =~= s@);
    while end < s.len() && s[end] != c
        invariant
            end <= s.len(),
            until_char(s@, c) == end + until_char(s@.skip(end as int), c),
        decreases s.len() - end,
    {
        assert(s@.skip(end as int).skip(1) =~= s@.skip(end + 1));
        end += 1;
    }
    assert(s@.take(end as int) =~= s@.subrange(0, end as int));
    copy_range(s, 0, end)
}

} // verus!
