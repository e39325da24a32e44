//! What the proxy reads out of a response's header block, and the one
//! change it makes to it.
//!
//! Header names are matched without regard to ASCII case.

use crate::digits::{
    decimal, format_decimal, is_decimal_digit, lemma_decimal_is_numeral, lemma_decimal_round_trip,
    parse_decimal, parse_decimal_usize,
};
use crate::text::{
    before_char, before_char_of, chars_of, colon_field, colon_field_of, contains, contains_seq,
    copy_range, is_one_line, join_lines, lemma_after_colon, lemma_join_lines_push,
    lemma_lines_are_lines, lemma_lines_of_joined, lemma_until_colon_all, lines, lower, push_all,
    split_lines, starts_with, string_of, to_lower, trim, trim_chars, trim_end, trim_start, views,
};
use vstd::prelude::*;

verus! {

/// Whether a media type, in lower case, is one whose bodies are text in
/// which addresses are rewritten.
pub open spec fn rewritable_type(content_type: Seq<char>) -> bool {
    ||| "text/"@.is_prefix_of(content_type)
    ||| contains(content_type, "xml"@)
    ||| contains(content_type, "json"@)
    ||| contains(content_type, "html"@)
}

/// The media type that a lower-case `content-type:` line declares: what
/// follows the header's name, trimmed, up to the first `;`. Parameters of
/// the type are no part of it.
pub open spec fn media_type(lower_line: Seq<char>) -> Seq<char> {
    before_char(trim(lower_line.skip("content-type:"@.len() as int)), ';')
}

/// The media type of the first `content-type:` line among the given
/// lower-case lines.
pub open spec fn first_content_type(lower_lines: Seq<Seq<char>>) -> Option<Seq<char>>
    decreases lower_lines.len(),
{
    if lower_lines.len() == 0 {
        None
    } else if "content-type:"@.is_prefix_of(lower_lines[0]) {
        Some(media_type(lower_lines[0]))
    } else {
        first_content_type(lower_lines.skip(1))
    }
}

/// The media type that a header block declares, in lower case.
pub open spec fn content_type(headers: Seq<char>) -> Option<Seq<char>> {
    first_content_type(lines(lower(headers)))
}

/// Whether the body that follows the header block is to be rewritten: the
/// block declares a media type, and the type is a rewritable one.
pub open spec fn needs_rewrite(headers: Seq<char>) -> bool {
    match content_type(headers) {
        Some(declared) => rewritable_type(declared),
        None => false,
    }
}

/// Whether a header block's content type calls for rewriting of the body.
pub fn should_rewrite_content(headers: &str) -> (b: bool)
    ensures
        b == needs_rewrite(headers@),
{
    let chars = chars_of(headers);
    let lowered = to_lower(chars.as_slice());
    let all = split_lines(lowered.as_slice());
    let name = chars_of("content-type:");
    let mut i: usize = 0;
    assert(views(all@).skip(0) =~= views(all@));
    while i < all.len()
        invariant
            i <= all.len(),
            views(all@) == lines(lower(headers@)),
            name@ == "content-type:"@,
            first_content_type(views(all@).skip(i as int)) == content_type(headers@),
        decreases all.len() - i,
    {
        let ghost rest = views(all@).skip(i as int);
        assert(rest[0] == all@[i as int]@);
        if starts_with(all[i].as_slice(), name.as_slice()) {
            let line = all[i].as_slice();
            let value = copy_range(line, name.len(), line.len());
            assert(value@ =~= line@.skip(name@.len() as int));
            let trimmed = trim_chars(value.as_slice());
            let declared = before_char_of(trimmed.as_slice(), ';');
            let text = chars_of("text/");
            let xml = chars_of("xml");
            let json = chars_of("json");
            let html = chars_of("html");
            return starts_with(declared.as_slice(), text.as_slice()) || contains_seq(
                declared.as_slice(),
                xml.as_slice(),
            ) || contains_seq(declared.as_slice(), json.as_slice()) || contains_seq(
                declared.as_slice(),
                html.as_slice(),
            );
        }
        assert(rest.skip(1) =~= views(all@).skip(i + 1));
        i += 1;
    }
    false
}

/// Whether a header line is a `Content-Length` line.
pub open spec fn is_content_length_line(line: Seq<char>) -> bool {
    "content-length:"@.is_prefix_of(lower(line))
}

/// The `Content-Length` line for a body of `n` bytes, without line ending.
pub open spec fn content_length_line(n: nat) -> Seq<char> {
    "Content-Length: "@ + decimal(n)
}

/// The lines as they stand after the update. The first `Content-Length`
/// line becomes the line for `n`, unless one was `seen` before; every later
/// one is left out; every other line stays.
pub open spec fn with_one_length(all: Seq<Seq<char>>, n: nat, seen: bool) -> Seq<Seq<char>>
    decreases all.len(),
{
    if all.len() == 0 {
        Seq::empty()
    } else if !is_content_length_line(all[0]) {
        seq![all[0]] + with_one_length(all.skip(1), n, seen)
    } else if seen {
        with_one_length(all.skip(1), n, true)
    } else {
        seq![content_length_line(n)] + with_one_length(all.skip(1), n, true)
    }
}

/// The header block with its `Content-Length` set to `n`: its lines, each
/// ended by `\r\n`, with the line for `n` in place of the first
/// `Content-Length` line and without any later one.
pub open spec fn updated_headers(headers: Seq<char>, n: nat) -> Seq<char> {
    join_lines(with_one_length(lines(headers), n, false))
}

/// Sets the `Content-Length` of a header block to `new_length`.
pub fn update_content_length(headers: &str, new_length: usize) -> (updated: String)
    ensures
        updated@ == updated_headers(headers@, new_length as nat),
{
    let chars = chars_of(headers);
    let all = split_lines(chars.as_slice());
    let name = chars_of("content-length:");
    let label = chars_of("Content-Length: ");
    let ending = chars_of("\r\n");
    let number = format_decimal(new_length);
    let ghost n = new_length as nat;
    let ghost mut kept: Seq<Seq<char>> = Seq::empty();
    let mut out: Vec<char> = Vec::new();
    let mut seen = false;
    let mut i: usize = 0;
    assert(lines(headers@).skip(0) =~= lines(headers@));
    assert(kept + with_one_length(lines(headers@), n, false) =~= with_one_length(
        lines(headers@),
        n,
        false,
    ));
    while i < all.len()
        invariant
            i <= all.len(),
            views(all@) == lines(headers@),
            name@ == "content-length:"@,
            label@ == "Content-Length: "@,
            ending@ == "\r\n"@,
            number@ == decimal(n),
            out@ == join_lines(kept),
            kept + with_one_length(lines(headers@).skip(i as int), n, seen) == with_one_length(
                lines(headers@),
                n,
                false,
            ),
        decreases all.len() - i,
    {
        let ghost rest = lines(headers@).skip(i as int);
        let ghost line = all@[i as int]@;
        assert(rest[0] == line);
        assert(rest.skip(1) =~= lines(headers@).skip(i + 1));
        let lowered = to_lower(all[i].as_slice());
        let ghost before = out@;
        if !starts_with(lowered.as_slice(), name.as_slice()) {
            push_all(&mut out, all[i].as_slice());
            push_all(&mut out, ending.as_slice());
            proof {
                lemma_join_lines_push(kept, line);
                assert(out@ =~= before + line + "\r\n"@);
                assert(kept.push(line) + with_one_length(rest.skip(1), n, seen) =~= kept
                    + with_one_length(rest, n, seen));
                kept = kept.push(line);
            }
        } else if !seen {
            push_all(&mut out, label.as_slice());
            push_all(&mut out, number.as_slice());
            push_all(&mut out, ending.as_slice());
            proof {
                lemma_join_lines_push(kept, content_length_line(n));
                assert(out@ =~= before + content_length_line(n) + "\r\n"@);
                assert(kept.push(content_length_line(n)) + with_one_length(rest.skip(1), n, true)
                    =~= kept + with_one_length(rest, n, seen));
                kept = kept.push(content_length_line(n));
            }
            seen = true;
        }
        i += 1;
    }
    assert(kept + with_one_length(lines(headers@).skip(i as int), n, seen) =~= kept);
    string_of(out.as_slice())
}

/// The length that a `Content-Length` line declares: what stands between
/// its first and second colon, trimmed, read as a decimal number. `None`
/// where that is no number or more than a `usize` holds.
pub open spec fn declared_length(line: Seq<char>) -> Option<usize> {
    match parse_decimal(trim(colon_field(line))) {
        Some(n) => if n <= usize::MAX {
            Some(n as usize)
        } else {
            None
        },
        None => None,
    }
}

/// Whether a header line declares the chunked transfer coding.
pub open spec fn declares_chunked(line: Seq<char>) -> bool {
    "transfer-encoding:"@.is_prefix_of(lower(line)) && contains(lower(line), "chunked"@)
}

/// The body length known after a header line, given what was known before
/// it: a `Content-Length` line replaces it, any other line keeps it.
pub open spec fn length_after(known: Option<usize>, line: Seq<char>) -> Option<usize> {
    if is_content_length_line(line) {
        declared_length(line)
    } else {
        known
    }
}

/// Reads a header line for the body's length.
pub fn inspect_length(known: Option<usize>, line: &str) -> (r: Option<usize>)
    ensures
        r == length_after(known, line@),
{
    let chars = chars_of(line);
    let lowered = to_lower(chars.as_slice());
    let name = chars_of("content-length:");
    if starts_with(lowered.as_slice(), name.as_slice()) {
        let field = colon_field_of(chars.as_slice());
        let digits = trim_chars(field.as_slice());
        parse_decimal_usize(digits.as_slice())
    } else {
        known
    }
}

/// Reads a header line for the chunked transfer coding.
pub fn inspect_chunked(line: &str) -> (b: bool)
    ensures
        b == declares_chunked(line@),
{
    let chars = chars_of(line);
    let lowered = to_lower(chars.as_slice());
    let name = chars_of("transfer-encoding:");
    let word = chars_of("chunked");
    starts_with(lowered.as_slice(), name.as_slice()) && contains_seq(
        lowered.as_slice(),
        word.as_slice(),
    )
}

/// The characters that a logged status line keeps: printable ASCII.
pub open spec fn is_printable(c: char) -> bool {
    ('!' <= c && c <= '~') || c == ' '
}

/// The longest status line that is logged.
pub const STATUS_LINE_LIMIT: usize = 100;

/// The status line of a header block as it is logged: the block's first
/// line, of which only printable ASCII is kept, cut after the first hundred
/// characters that were kept.
pub open spec fn status_text(headers: Seq<char>) -> Seq<char> {
    let all = lines(headers);
    let first = if all.len() > 0 {
        all[0]
    } else {
        Seq::empty()
    };
    let kept = first.filter(|c: char| is_printable(c));
    if kept.len() <= STATUS_LINE_LIMIT {
        kept
    } else {
        kept.take(STATUS_LINE_LIMIT as int)
    }
}

/// The status line of a header block, made safe for a log.
pub fn status_line(headers: &str) -> (line: String)
    ensures
        line@ == status_text(headers@),
{
    let chars = chars_of(headers);
    let all = split_lines(chars.as_slice());
    let mut out: Vec<char> = Vec::new();
    if all.len() > 0 {
        let first = all[0].as_slice();
        assert(first@ == views(all@)[0]);
        let ghost keep = |c: char| is_printable(c);
        let mut i: usize = 0;
        assert(first@.take(0) =~= Seq::<char>::empty());
        while i < first.len() && out.len() < STATUS_LINE_LIMIT
            invariant
                i <= first.len(),
                keep == |c: char| is_printable(c),
                out@ == first@.take(i as int).filter(keep),
                out@.len() <= STATUS_LINE_LIMIT,
            decreases first.len() - i,
        {
            let c = first[i];
            proof {
                assert(first@.take(i + 1) =~= first@.take(i as int).push(c));
                first@.take(i as int).lemma_filter_push(c, keep);
            }
            if ('!' <= c && c <= '~') || c == ' ' {
                out.push(c);
            }
            i += 1;
        }
        proof {
            assert(first@ =~= first@.take(i as int) + first@.skip(i as int));
            Seq::filter_distributes_over_add(first@.take(i as int), first@.skip(i as int), keep);
            if i < first.len() {
                assert(first@.filter(keep).take(STATUS_LINE_LIMIT as int) =~= out@);
            } else {
                assert(first@.take(i as int) =~= first@);
            }
        }
    } else {
        assert(Seq::<char>::empty().filter(|c: char| is_printable(c)) =~= Seq::<char>::empty());
    }
    string_of(out.as_slice())
}

/// A `Content-Length` line as the update writes it is one line, is a
/// `Content-Length` line, and declares the length it was written for.
pub proof fn lemma_content_length_line(n: nat)
    ensures
        is_one_line(content_length_line(n)),
        is_content_length_line(content_length_line(n)),
        n <= usize::MAX ==> declared_length(content_length_line(n)) == Some(n as usize),
{
    reveal_strlit("Content-Length: ");
    reveal_strlit("content-length:");
    let label = "Content-Length: "@;
    let digits = decimal(n);
    let line = content_length_line(n);
    lemma_decimal_is_numeral(n);
    lemma_decimal_round_trip(n);
    assert forall|k: int| 0 <= k < line.len() implies line[k] != '\n' by {
        if k >= label.len() {
            assert(line[k] == digits[k - label.len()]);
            assert(is_decimal_digit(digits[k - label.len()]));
        }
    }
    assert(lower(line).subrange(0, "content-length:"@.len() as int) =~= "content-length:"@);
    lemma_after_colon(line, 14);
    let value = line.skip(15);
    assert(value =~= seq![' '] + digits);
    assert forall|k: int| 0 <= k < value.len() implies value[k] != ':' by {
        if k > 0 {
            assert(value[k] == digits[k - 1]);
            assert(is_decimal_digit(digits[k - 1]));
        }
    }
    lemma_until_colon_all(value);
    assert(value.take(value.len() as int) =~= value);
    assert(colon_field(line) == value);
    assert(value.skip(1) =~= digits);
    assert(is_decimal_digit(digits[0]));
    assert(trim_start(digits) == digits);
    assert(trim_start(value) == digits);
    assert(is_decimal_digit(digits.last()));
    assert(trim_end(digits) == digits);
}

/// The lines that are no `Content-Length` lines, in order.
pub open spec fn other_lines(all: Seq<Seq<char>>) -> Seq<Seq<char>>
    decreases all.len(),
{
    if all.len() == 0 {
        Seq::empty()
    } else if is_content_length_line(all[0]) {
        other_lines(all.skip(1))
    } else {
        seq![all[0]] + other_lines(all.skip(1))
    }
}

/// Number of `Content-Length` lines.
pub open spec fn length_lines(all: Seq<Seq<char>>) -> nat
    decreases all.len(),
{
    if all.len() == 0 {
        0
    } else if is_content_length_line(all[0]) {
        1 + length_lines(all.skip(1))
    } else {
        length_lines(all.skip(1))
    }
}

/// What the update does to any lines: the other lines stay, in order; of
/// `Content-Length` lines there is one afterwards where there was one or
/// more and none was seen before, and none otherwise; and every line of the
/// outcome is one line where every line was.
pub proof fn lemma_with_one_length(all: Seq<Seq<char>>, n: nat, seen: bool)
    ensures
        other_lines(with_one_length(all, n, seen)) == other_lines(all),
        length_lines(with_one_length(all, n, seen)) == if !seen && length_lines(all) > 0 {
            1nat
        } else {
            0nat
        },
        forall|i: int|
            0 <= i < with_one_length(all, n, seen).len() && is_content_length_line(
                #[trigger] with_one_length(all, n, seen)[i],
            ) ==> with_one_length(all, n, seen)[i] == content_length_line(n),
        (forall|i: int| 0 <= i < all.len() ==> is_one_line(#[trigger] all[i])) ==> forall|i: int|
            0 <= i < with_one_length(all, n, seen).len() ==> is_one_line(
                #[trigger] with_one_length(all, n, seen)[i],
            ),
    decreases all.len(),
{
    lemma_content_length_line(n);
    if all.len() > 0 {
        let rest = all.skip(1);
        let out = with_one_length(all, n, seen);
        if !is_content_length_line(all[0]) {
            lemma_with_one_length(rest, n, seen);
            let tail = with_one_length(rest, n, seen);
            assert(out == seq![all[0]] + tail);
            assert(out.skip(1) =~= tail);
            assert forall|i: int| 0 <= i < out.len() && is_content_length_line(
                #[trigger] out[i],
            ) implies out[i] == content_length_line(n) by {
                assert(out[i] == tail[i - 1]);
            }
            if forall|i: int| 0 <= i < all.len() ==> is_one_line(#[trigger] all[i]) {
                assert forall|i: int| 0 <= i < rest.len() implies is_one_line(
                    #[trigger] rest[i],
                ) by {
                    assert(rest[i] == all[i + 1]);
                }
                assert forall|i: int| 0 <= i < out.len() implies is_one_line(#[trigger] out[i]) by {
                    if i > 0 {
                        assert(out[i] == tail[i - 1]);
                    } else {
                        assert(out[0] == all[0]);
                    }
                }
            }
        } else {
            lemma_with_one_length(rest, n, true);
            let tail = with_one_length(rest, n, true);
            if seen {
                assert(out == tail);
            } else {
                assert(out == seq![content_length_line(n)] + tail);
                assert(out.skip(1) =~= tail);
                assert forall|i: int| 0 <= i < out.len() && is_content_length_line(
                    #[trigger] out[i],
                ) implies out[i] == content_length_line(n) by {
                    if i > 0 {
                        assert(out[i] == tail[i - 1]);
                    }
                }
            }
            if forall|i: int| 0 <= i < all.len() ==> is_one_line(#[trigger] all[i]) {
                assert forall|i: int| 0 <= i < rest.len() implies is_one_line(
                    #[trigger] rest[i],
                ) by {
                    assert(rest[i] == all[i + 1]);
                }
                assert forall|i: int| 0 <= i < out.len() implies is_one_line(#[trigger] out[i]) by {
                    if !seen && i > 0 {
                        assert(out[i] == tail[i - 1]);
                    }
                }
            }
        }
    }
}

/// After the update, the header block has the lines that the update leaves
/// of the lines it had before.
pub proof fn lemma_updated_lines(headers: Seq<char>, n: nat)
    ensures
        lines(updated_headers(headers, n)) == with_one_length(lines(headers), n, false),
{
    lemma_lines_are_lines(headers);
    lemma_with_one_length(lines(headers), n, false);
    lemma_lines_of_joined(with_one_length(lines(headers), n, false));
}

/// After the update, the header block declares the new length, and no
/// other: it holds one `Content-Length` line where it held one or more
/// before, and none where it held none; that line is the line for `n`; and
/// every other line is kept, in order.
pub proof fn lemma_update_leaves_one_length(headers: Seq<char>, n: nat)
    ensures
        length_lines(lines(updated_headers(headers, n))) == if length_lines(lines(headers)) > 0 {
            1nat
        } else {
            0nat
        },
        forall|i: int|
            0 <= i < lines(updated_headers(headers, n)).len() && is_content_length_line(
                #[trigger] lines(updated_headers(headers, n))[i],
            ) ==> lines(updated_headers(headers, n))[i] == content_length_line(n),
        other_lines(lines(updated_headers(headers, n))) == other_lines(lines(headers)),
{
    lemma_updated_lines(headers, n);
    lemma_with_one_length(lines(headers), n, false);
}

/// Whether a body is rewritten does not depend on the case of the letters
/// in the header block.
pub proof fn lemma_case_does_not_matter(a: Seq<char>, b: Seq<char>)
    requires
        lower(a) == lower(b),
    ensures
        needs_rewrite(a) == needs_rewrite(b),
{
}

/// A header block without a `Content-Type` line calls for no rewriting.
pub proof fn lemma_no_content_type(headers: Seq<char>)
    requires
        forall|i: int|
            0 <= i < lines(lower(headers)).len() ==> !"content-type:"@.is_prefix_of(
                #[trigger] lines(lower(headers))[i],
            ),
    ensures
        !needs_rewrite(headers),
{
    lemma_first_content_type_none(lines(lower(headers)));
}

proof fn lemma_first_content_type_none(all: Seq<Seq<char>>)
    requires
        forall|i: int| 0 <= i < all.len() ==> !"content-type:"@.is_prefix_of(#[trigger] all[i]),
    ensures
        first_content_type(all) is None,
    decreases all.len(),
{
    if all.len() > 0 {
        assert(!"content-type:"@.is_prefix_of(all[0]));
        assert forall|i: int| 0 <= i < all.skip(1).len() implies !"content-type:"@.is_prefix_of(
            #[trigger] all.skip(1)[i],
        ) by {
            assert(all.skip(1)[i] == all[i + 1]);
        }
        lemma_first_content_type_none(all.skip(1));
    }
}

} // verus!
