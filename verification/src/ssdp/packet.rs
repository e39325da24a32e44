//! The three SSDP packets that are sent on behalf of the remote server, and
//! their exact form on the wire.

use crate::digits::{decimal, format_decimal, is_decimal_digit, lemma_decimal_is_numeral};
use crate::text::{
    chars_of, contains, is_one_line, join_lines, lemma_lines_of_joined, lines, occurs_at,
    replace, replace_all, string_of,
};
use vstd::prelude::*;

verus! {

/// A packet to be sent.
pub enum SSDPPacket {
    /// The announcement that the server is there.
    Alive {
        desc_url: String,
        server_ua: String,
        unique_device_name: String,
        device_type: String,
        cache_max_age: usize,
    },
    /// The answer to a search.
    Response {
        desc_url: String,
        server_ua: String,
        unique_device_name: String,
        device_type: String,
        cache_max_age: usize,
    },
    /// The announcement that the server is gone.
    ByeBye { unique_device_name: String, device_type: String },
}

/// The first two lines of an announcement.
pub open spec fn notify_head() -> Seq<char> {
    "NOTIFY * HTTP/1.1\r\n"@ + "HOST:239.255.255.250:1900\r\n"@
}

/// The `CACHE-CONTROL` line.
pub open spec fn cache_control_line(max_age: usize) -> Seq<char> {
    "CACHE-CONTROL:max-age="@ + decimal(max_age as nat) + "\r\n"@
}

/// A header line: the label, with its colon and any space, the value, and the
/// line ending.
pub open spec fn header_line(label: Seq<char>, value: Seq<char>) -> Seq<char> {
    label + value + "\r\n"@
}

/// The `USN` line: the device's name and its type, joined by `::`.
pub open spec fn usn_line(name: Seq<char>, device_type: Seq<char>) -> Seq<char> {
    "USN:"@ + name + "::"@ + device_type + "\r\n"@
}

impl SSDPPacket {
    /// The packet as it is sent: header lines in a fixed order, each ended by
    /// `\r\n`, and an empty line. `date` is the value of the `DATE` line,
    /// which only the answer to a search has.
    pub open spec fn wire(self, date: Seq<char>) -> Seq<char> {
        match self {
            SSDPPacket::Alive {
                desc_url,
                server_ua,
                unique_device_name,
                device_type,
                cache_max_age,
            } => notify_head() + cache_control_line(cache_max_age) + header_line(
                "LOCATION:"@,
                desc_url@,
            ) + header_line("SERVER: "@, server_ua@) + header_line("NT:"@, device_type@)
                + usn_line(unique_device_name@, device_type@) + "NTS:ssdp:alive\r\n"@ + "\r\n"@,
            SSDPPacket::Response {
                desc_url,
                server_ua,
                unique_device_name,
                device_type,
                cache_max_age,
            } => "HTTP/1.1 200 OK\r\n"@ + cache_control_line(cache_max_age) + header_line(
                "DATE: "@,
                date,
            ) + header_line("ST: "@, device_type@) + usn_line(unique_device_name@, device_type@)
                + "EXT:\r\n"@ + header_line("SERVER: "@, server_ua@) + header_line(
                "LOCATION:"@,
                desc_url@,
            ) + "Content-Length: 0\r\n"@ + "\r\n"@,
            SSDPPacket::ByeBye { unique_device_name, device_type } => notify_head() + header_line(
                "NT:"@,
                device_type@,
            ) + usn_line(unique_device_name@, device_type@) + "NTS:ssdp:byebye\r\n"@ + "\r\n"@,
        }
    }

    /// Renders the packet, with `date` as the value of the `DATE` line.
    pub fn render(&self, date: &str) -> (out: String)
        ensures
            out@ == self.wire(date@),
    {
        let mut out = String::new();
        match self {
            SSDPPacket::Alive {
                desc_url,
                server_ua,
                unique_device_name,
                device_type,
                cache_max_age,
            } => {
                out.append("NOTIFY * HTTP/1.1\r\n");
                out.append("HOST:239.255.255.250:1900\r\n");
                append_cache_control(&mut out, *cache_max_age);
                append_header(&mut out, "LOCATION:", desc_url.as_str());
                append_header(&mut out, "SERVER: ", server_ua.as_str());
                append_header(&mut out, "NT:", device_type.as_str());
                append_usn(&mut out, unique_device_name.as_str(), device_type.as_str());
                out.append("NTS:ssdp:alive\r\n");
                out.append("\r\n");
                assert(out@ =~= self.wire(date@));
            },
            SSDPPacket::Response {
                desc_url,
                server_ua,
                unique_device_name,
                device_type,
                cache_max_age,
            } => {
                out.append("HTTP/1.1 200 OK\r\n");
                append_cache_control(&mut out, *cache_max_age);
                append_header(&mut out, "DATE: ", date);
                append_header(&mut out, "ST: ", device_type.as_str());
                append_usn(&mut out, unique_device_name.as_str(), device_type.as_str());
                out.append("EXT:\r\n");
                append_header(&mut out, "SERVER: ", server_ua.as_str());
                append_header(&mut out, "LOCATION:", desc_url.as_str());
                out.append("Content-Length: 0\r\n");
                out.append("\r\n");
                assert(out@ =~= self.wire(date@));
            },
            SSDPPacket::ByeBye { unique_device_name, device_type } => {
                out.append("NOTIFY * HTTP/1.1\r\n");
                out.append("HOST:239.255.255.250:1900\r\n");
                append_header(&mut out, "NT:", device_type.as_str());
                append_usn(&mut out, unique_device_name.as_str(), device_type.as_str());
                out.append("NTS:ssdp:byebye\r\n");
                out.append("\r\n");
                assert(out@ =~= self.wire(date@));
            },
        }
        out
    }
}

fn append_cache_control(out: &mut String, max_age: usize)
    ensures
        final(out)@ == old(out)@ + cache_control_line(max_age),
{
    out.append("CACHE-CONTROL:max-age=");
    let digits = format_decimal(max_age);
    let number = string_of(digits.as_slice());
    out.append(number.as_str());
    out.append("\r\n");
    assert(out@ =~= old(out)@ + cache_control_line(max_age));
}

fn append_header(out: &mut String, label: &str, value: &str)
    ensures
        final(out)@ == old(out)@ + header_line(label@, value@),
{
    out.append(label);
    out.append(value);
    out.append("\r\n");
    assert(out@ =~= old(out)@ + header_line(label@, value@));
}

fn append_usn(out: &mut String, name: &str, device_type: &str)
    ensures
        final(out)@ == old(out)@ + usn_line(name@, device_type@),
{
    out.append("USN:");
    out.append(name);
    out.append("::");
    out.append(device_type);
    out.append("\r\n");
    assert(out@ =~= old(out)@ + usn_line(name@, device_type@));
}

/// The characters of a date and time in RFC 2822 before the offset: the
/// letters of the day's and the month's name, digits, the comma, the colon
/// and the space.
pub open spec fn is_stamp_char(c: char) -> bool {
    ||| ('a' <= c && c <= 'z')
    ||| ('A' <= c && c <= 'Z')
    ||| ('0' <= c && c <= '9')
    ||| c == ','
    ||| c == ':'
    ||| c == ' '
}

/// The form of a date and time of the UTC zone in RFC 2822, as far as it
/// matters here: day, date and time in letters, digits, commas, colons and
/// spaces, and then the offset `+0000`.
pub open spec fn is_utc_stamp(stamp: Seq<char>) -> bool {
    &&& stamp.len() >= 5
    &&& stamp.skip(stamp.len() - 5) == "+0000"@
    &&& forall|i: int| 0 <= i < stamp.len() - 5 ==> is_stamp_char(#[trigger] stamp[i])
}

/// Reads the clock and writes the time in RFC 2822, or gives `None` where
/// one of the two cannot be done.
///
/// The clock is read as `chrono::Utc::now` reads it, by
/// `std::time::SystemTime::now`, `SystemTime::duration_since` and
/// `chrono::DateTime::from_timestamp`; the time is written as
/// `chrono::DateTime::to_rfc2822` writes it, by
/// `chrono::DateTime::format_with_items` with the RFC 2822 item and
/// `chrono::format::DelayedFormat::write_to`. Unlike `now` and
/// `to_rfc2822`, these calls return an error on a clock that stands before
/// 1970 and on a year that RFC 2822 cannot hold (after 9999).
///
/// The result changes with the clock, so the contract states only the form
/// that the formatter gives to every date of the UTC zone: English names
/// of day and month, digits, commas, colons and spaces, and at the end the
/// offset `+0000`. Nothing is promised of when there is a result.
#[verifier::external_body]
fn utc_now_rfc2822() -> (stamp: Option<String>)
    ensures
        stamp matches Some(text) ==> is_utc_stamp(text@),
{
    let since = std::time::SystemTime::now().duration_since(std::time::UNIX_EPOCH).ok()?;
    let secs = i64::try_from(since.as_secs()).ok()?;
    let now = chrono::DateTime::from_timestamp(secs, since.subsec_nanos())?;
    let items = [chrono::format::Item::Fixed(chrono::format::Fixed::RFC2822)];
    let mut text = String::new();
    now.format_with_items(items.iter()).write_to(&mut text).ok()?;
    Some(text)
}

/// The value of a `DATE` line for a date in RFC 2822: `GMT` in place of the
/// offset `+0000`.
pub open spec fn http_date_of(stamp: Seq<char>) -> Seq<char> {
    replace_all(stamp, "+0000"@, "GMT"@)
}

/// Turns a date in RFC 2822 into the value of a `DATE` line.
pub fn http_date(stamp: &str) -> (date: String)
    ensures
        date@ == http_date_of(stamp@),
{
    let text = chars_of(stamp);
    let from = chars_of("+0000");
    let to = chars_of("GMT");
    let out = replace(text.as_slice(), from.as_slice(), to.as_slice());
    string_of(out.as_slice())
}

impl SSDPPacket {
    /// Renders the packet as it is sent now. An announcement is always
    /// rendered, and carries no date. The answer to a search carries the
    /// current date and time of the UTC zone, and is not rendered where the
    /// clock cannot be read or its time cannot be written.
    pub fn to_string(&self) -> (out: Option<String>)
        ensures
            match out {
                Some(text) => if self is Response {
                    exists|stamp: Seq<char>|
                        is_utc_stamp(stamp) && text@ == self.wire(http_date_of(stamp))
                } else {
                    forall|date: Seq<char>| text@ == #[trigger] self.wire(date)
                },
                None => self is Response,
            },
    {
        match self {
            SSDPPacket::Response { .. } => {
                match utc_now_rfc2822() {
                    Some(stamp) => {
                        let date = http_date(stamp.as_str());
                        Some(self.render(date.as_str()))
                    },
                    None => None,
                }
            },
            _ => Some(self.render("")),
        }
    }
}

/// The date of a UTC stamp is the stamp with `GMT` in place of its offset.
pub proof fn lemma_http_date_ends_in_gmt(stamp: Seq<char>)
    requires
        is_utc_stamp(stamp),
    ensures
        http_date_of(stamp) == stamp.take(stamp.len() - 5) + "GMT"@,
    decreases stamp.len(),
{
    reveal_strlit("+0000");
    reveal_strlit("GMT");
    let from = "+0000"@;
    let to = "GMT"@;
    if stamp.len() == 5 {
        assert(stamp.skip(0) =~= stamp);
        assert(stamp.take(5) =~= stamp);
        assert(stamp.skip(5) =~= Seq::<char>::empty());
        assert(replace_all(stamp.skip(5), from, to) =~= Seq::<char>::empty());
        assert(http_date_of(stamp) =~= stamp.take(0) + to);
    } else {
        let rest = stamp.skip(1);
        assert(rest.skip(rest.len() - 5) =~= stamp.skip(stamp.len() - 5));
        assert forall|i: int| 0 <= i < rest.len() - 5 implies is_stamp_char(
            #[trigger] rest[i],
        ) by {
            assert(rest[i] == stamp[i + 1]);
        }
        assert(is_stamp_char(stamp[0]));
        assert(stamp.take(5)[0] == stamp[0]);
        assert(from[0] == '+');
        lemma_http_date_ends_in_gmt(rest);
        assert(rest.take(rest.len() - 5) =~= stamp.take(stamp.len() - 5).skip(1));
        assert(http_date_of(stamp) =~= stamp.take(stamp.len() - 5) + to);
    }
}

/// What a text contains, it still contains when more is put after it.
pub proof fn lemma_contains_before(text: Seq<char>, after: Seq<char>, part: Seq<char>)
    requires
        contains(text, part),
    ensures
        contains(text + after, part),
{
    let i = choose|i: int| occurs_at(text, part, i);
    assert((text + after).subrange(i, i + part.len()) =~= text.subrange(i, i + part.len()));
    assert(occurs_at(text + after, part, i));
}

/// What is put after a text is contained in the whole.
pub proof fn lemma_contains_after(text: Seq<char>, part: Seq<char>)
    ensures
        contains(text + part, part),
{
    assert((text + part).subrange(text.len() as int, (text.len() + part.len()) as int) =~= part);
    assert(occurs_at(text + part, part, text.len() as int));
}

/// What a text begins with, it still begins with when more is put after it.
pub proof fn lemma_prefix_before(text: Seq<char>, after: Seq<char>, start: Seq<char>)
    requires
        start.is_prefix_of(text),
    ensures
        start.is_prefix_of(text + after),
{
    assert((text + after).subrange(0, start.len() as int) =~= text.subrange(
        0,
        start.len() as int,
    ));
}

/// What a text ends with, it still ends with when more is put before it.
pub proof fn lemma_suffix_after(before: Seq<char>, text: Seq<char>, end: Seq<char>)
    requires
        end.is_suffix_of(text),
    ensures
        end.is_suffix_of(before + text),
{
    let whole = before + text;
    assert(whole.subrange(whole.len() - end.len(), whole.len() as int) =~= text.subrange(
        text.len() - end.len(),
        text.len() as int,
    ));
}

/// The last header line of an announcement of presence and the empty line
/// end in two line endings.
proof fn lemma_alive_tail()
    ensures
        "\r\n\r\n"@.is_suffix_of("NTS:ssdp:alive\r\n"@ + "\r\n"@),
{
    reveal_strlit("NTS:ssdp:alive\r\n");
    reveal_strlit("\r\n");
    reveal_strlit("\r\n\r\n");
    let tail = "NTS:ssdp:alive\r\n"@ + "\r\n"@;
    assert(tail.subrange(tail.len() - 4, tail.len() as int) =~= "\r\n\r\n"@);
}

/// A text begins with itself.
pub proof fn lemma_prefix_self(text: Seq<char>)
    ensures
        text.is_prefix_of(text),
{
    assert(text.subrange(0, text.len() as int) =~= text);
}

/// Every announcement of presence begins with the `NOTIFY` request line,
/// holds the `HOST` line of the multicast group and the `NTS` line of an
/// announcement, and ends with an empty line.
pub proof fn lemma_alive_form(packet: SSDPPacket, date: Seq<char>)
    requires
        packet is Alive,
    ensures
        "NOTIFY * HTTP/1.1\r\n"@.is_prefix_of(packet.wire(date)),
        contains(packet.wire(date), "HOST:239.255.255.250:1900\r\n"@),
        contains(packet.wire(date), "NTS:ssdp:alive\r\n"@),
        "\r\n\r\n"@.is_suffix_of(packet.wire(date)),
{
    match packet {
        SSDPPacket::Alive {
            desc_url,
            server_ua,
            unique_device_name,
            device_type,
            cache_max_age,
        } => {
            let first = "NOTIFY * HTTP/1.1\r\n"@;
            let host = "HOST:239.255.255.250:1900\r\n"@;
            let nts = "NTS:ssdp:alive\r\n"@;
            let blank = "\r\n"@;
            let w1 = first + host;
            let w2 = w1 + cache_control_line(cache_max_age);
            let w3 = w2 + header_line("LOCATION:"@, desc_url@);
            let w4 = w3 + header_line("SERVER: "@, server_ua@);
            let w5 = w4 + header_line("NT:"@, device_type@);
            let w6 = w5 + usn_line(unique_device_name@, device_type@);
            let w7 = w6 + nts;
            let w8 = w7 + blank;
            assert(packet.wire(date) == w8);
            lemma_prefix_self(first);
            lemma_prefix_before(first, host, first);
            lemma_prefix_before(w1, cache_control_line(cache_max_age), first);
            lemma_prefix_before(w2, header_line("LOCATION:"@, desc_url@), first);
            lemma_prefix_before(w3, header_line("SERVER: "@, server_ua@), first);
            lemma_prefix_before(w4, header_line("NT:"@, device_type@), first);
            lemma_prefix_before(w5, usn_line(unique_device_name@, device_type@), first);
            lemma_prefix_before(w6, nts, first);
            lemma_prefix_before(w7, blank, first);
            lemma_contains_after(first, host);
            lemma_contains_before(w1, cache_control_line(cache_max_age), host);
            lemma_contains_before(w2, header_line("LOCATION:"@, desc_url@), host);
            lemma_contains_before(w3, header_line("SERVER: "@, server_ua@), host);
            lemma_contains_before(w4, header_line("NT:"@, device_type@), host);
            lemma_contains_before(w5, usn_line(unique_device_name@, device_type@), host);
            lemma_contains_before(w6, nts, host);
            lemma_contains_before(w7, blank, host);
            lemma_contains_after(w6, nts);
            lemma_contains_before(w7, blank, nts);
            assert(w8 =~= w6 + (nts + blank));
            lemma_alive_tail();
            lemma_suffix_after(w6, nts + blank, "\r\n\r\n"@);
        },
        _ => {},
    }
}

/// Every answer to a search begins with the status line `200 OK` and holds
/// a `DATE` line, the `EXT` line and a `Content-Length` of zero. Sent with
/// the date of a UTC stamp, the value of its `DATE` line ends in `GMT`.
pub proof fn lemma_response_form(packet: SSDPPacket, stamp: Seq<char>)
    requires
        packet is Response,
        is_utc_stamp(stamp),
    ensures
        "HTTP/1.1 200 OK\r\n"@.is_prefix_of(packet.wire(http_date_of(stamp))),
        contains(packet.wire(http_date_of(stamp)), header_line("DATE: "@, http_date_of(stamp))),
        "GMT"@.is_suffix_of(http_date_of(stamp)),
        contains(packet.wire(http_date_of(stamp)), "EXT:\r\n"@),
        contains(packet.wire(http_date_of(stamp)), "Content-Length: 0\r\n"@),
{
    let date = http_date_of(stamp);
    lemma_http_date_ends_in_gmt(stamp);
    assert(date.subrange(date.len() - "GMT"@.len(), date.len() as int) =~= "GMT"@);
    match packet {
        SSDPPacket::Response {
            desc_url,
            server_ua,
            unique_device_name,
            device_type,
            cache_max_age,
        } => {
            let first = "HTTP/1.1 200 OK\r\n"@;
            let date_line = header_line("DATE: "@, date);
            let ext = "EXT:\r\n"@;
            let length = "Content-Length: 0\r\n"@;
            let blank = "\r\n"@;
            let w1 = first + cache_control_line(cache_max_age);
            let w2 = w1 + date_line;
            let w3 = w2 + header_line("ST: "@, device_type@);
            let w4 = w3 + usn_line(unique_device_name@, device_type@);
            let w5 = w4 + ext;
            let w6 = w5 + header_line("SERVER: "@, server_ua@);
            let w7 = w6 + header_line("LOCATION:"@, desc_url@);
            let w8 = w7 + length;
            let w9 = w8 + blank;
            assert(packet.wire(date) == w9);
            lemma_prefix_self(first);
            lemma_prefix_before(first, cache_control_line(cache_max_age), first);
            lemma_prefix_before(w1, date_line, first);
            lemma_prefix_before(w2, header_line("ST: "@, device_type@), first);
            lemma_prefix_before(w3, usn_line(unique_device_name@, device_type@), first);
            lemma_prefix_before(w4, ext, first);
            lemma_prefix_before(w5, header_line("SERVER: "@, server_ua@), first);
            lemma_prefix_before(w6, header_line("LOCATION:"@, desc_url@), first);
            lemma_prefix_before(w7, length, first);
            lemma_prefix_before(w8, blank, first);
            lemma_contains_after(w1, date_line);
            lemma_contains_before(w2, header_line("ST: "@, device_type@), date_line);
            lemma_contains_before(w3, usn_line(unique_device_name@, device_type@), date_line);
            lemma_contains_before(w4, ext, date_line);
            lemma_contains_before(w5, header_line("SERVER: "@, server_ua@), date_line);
            lemma_contains_before(w6, header_line("LOCATION:"@, desc_url@), date_line);
            lemma_contains_before(w7, length, date_line);
            lemma_contains_before(w8, blank, date_line);
            lemma_contains_after(w4, ext);
            lemma_contains_before(w5, header_line("SERVER: "@, server_ua@), ext);
            lemma_contains_before(w6, header_line("LOCATION:"@, desc_url@), ext);
            lemma_contains_before(w7, length, ext);
            lemma_contains_before(w8, blank, ext);
            lemma_contains_after(w7, length);
            lemma_contains_before(w8, blank, length);
        },
        _ => {},
    }
}

/// A word that occurs in two texts put together occurs in one of them,
/// where the first ends in a character that the word does not hold.
pub proof fn lemma_no_straddle_after(a: Seq<char>, b: Seq<char>, word: Seq<char>)
    requires
        a.len() > 0,
        !word.contains(a.last()),
        contains(a + b, word),
    ensures
        contains(a, word) || contains(b, word),
{
    let i = choose|i: int| occurs_at(a + b, word, i);
    let window = (a + b).subrange(i, i + word.len());
    if i + word.len() <= a.len() {
        assert(a.subrange(i, i + word.len()) =~= window);
        assert(occurs_at(a, word, i));
    } else if i >= a.len() {
        assert(b.subrange(i - a.len(), i - a.len() + word.len()) =~= window);
        assert(occurs_at(b, word, i - a.len()));
    } else {
        assert(window[a.len() - 1 - i] == a.last());
        assert(word[a.len() - 1 - i] == a.last());
    }
}

/// A word that occurs in two texts put together occurs in one of them,
/// where the second begins with a character that the word does not hold.
pub proof fn lemma_no_straddle_before(a: Seq<char>, b: Seq<char>, word: Seq<char>)
    requires
        b.len() > 0,
        !word.contains(b[0]),
        contains(a + b, word),
    ensures
        contains(a, word) || contains(b, word),
{
    let i = choose|i: int| occurs_at(a + b, word, i);
    let window = (a + b).subrange(i, i + word.len());
    if i + word.len() <= a.len() {
        assert(a.subrange(i, i + word.len()) =~= window);
        assert(occurs_at(a, word, i));
    } else if i >= a.len() {
        assert(b.subrange(i - a.len(), i - a.len() + word.len()) =~= window);
        assert(occurs_at(b, word, i - a.len()));
    } else {
        assert(window[a.len() - i] == b[0]);
        assert(word[a.len() - i] == b[0]);
    }
}

/// A text that lacks one of a word's characters does not hold the word.
pub proof fn lemma_lacks_word(text: Seq<char>, word: Seq<char>, k: int)
    requires
        0 <= k < word.len(),
        forall|i: int| 0 <= i < text.len() ==> text[i] != word[k],
    ensures
        !contains(text, word),
{
    if contains(text, word) {
        let i = choose|i: int| occurs_at(text, word, i);
        assert(text.subrange(i, i + word.len())[k] == word[k]);
    }
}

/// Every announcement of absence begins with the `NOTIFY` request line
/// and holds the `HOST` line of the multicast group and the `NTS` line of a
/// farewell.
pub proof fn lemma_byebye_form(packet: SSDPPacket, date: Seq<char>)
    requires
        packet is ByeBye,
    ensures
        "NOTIFY * HTTP/1.1\r\n"@.is_prefix_of(packet.wire(date)),
        contains(packet.wire(date), "HOST:239.255.255.250:1900\r\n"@),
        contains(packet.wire(date), "NTS:ssdp:byebye\r\n"@),
{
    match packet {
        SSDPPacket::ByeBye { unique_device_name, device_type } => {
            let first = "NOTIFY * HTTP/1.1\r\n"@;
            let host = "HOST:239.255.255.250:1900\r\n"@;
            let nts = "NTS:ssdp:byebye\r\n"@;
            let blank = "\r\n"@;
            let w1 = first + host;
            let w2 = w1 + header_line("NT:"@, device_type@);
            let w3 = w2 + usn_line(unique_device_name@, device_type@);
            let w4 = w3 + nts;
            let w5 = w4 + blank;
            assert(packet.wire(date) == w5);
            lemma_prefix_self(first);
            lemma_prefix_before(first, host, first);
            lemma_prefix_before(w1, header_line("NT:"@, device_type@), first);
            lemma_prefix_before(w2, usn_line(unique_device_name@, device_type@), first);
            lemma_prefix_before(w3, nts, first);
            lemma_prefix_before(w4, blank, first);
            lemma_contains_after(first, host);
            lemma_contains_before(w1, header_line("NT:"@, device_type@), host);
            lemma_contains_before(w2, usn_line(unique_device_name@, device_type@), host);
            lemma_contains_before(w3, nts, host);
            lemma_contains_before(w4, blank, host);
            lemma_contains_after(w3, nts);
            lemma_contains_before(w4, blank, nts);
        },
        _ => {},
    }
}

/// The three header names that an announcement of absence does not carry.
pub open spec fn is_omitted_name(word: Seq<char>) -> bool {
    word == "CACHE-CONTROL"@ || word == "LOCATION"@ || word == "SERVER"@
}

/// An announcement of absence holds none of `CACHE-CONTROL`, `LOCATION` and
/// `SERVER`, unless the device's name or type brings the word with it.
pub proof fn lemma_byebye_omits(packet: SSDPPacket, date: Seq<char>, word: Seq<char>)
    requires
        is_omitted_name(word),
        packet matches SSDPPacket::ByeBye { unique_device_name, device_type } && !contains(
            unique_device_name@,
            word,
        ) && !contains(device_type@, word),
    ensures
        !contains(packet.wire(date), word),
{
    reveal_strlit("CACHE-CONTROL");
    reveal_strlit("LOCATION");
    reveal_strlit("SERVER");
    reveal_strlit("NOTIFY * HTTP/1.1\r\n");
    reveal_strlit("HOST:239.255.255.250:1900\r\n");
    reveal_strlit("NT:");
    reveal_strlit("USN:");
    reveal_strlit("::");
    reveal_strlit("\r\n");
    reveal_strlit("NTS:ssdp:byebye\r\n");
    let wire = packet.wire(date);
    match packet {
        SSDPPacket::ByeBye { unique_device_name, device_type } => {
            let name = unique_device_name@;
            let kind = device_type@;
            let lead = notify_head() + "NT:"@;
            let before_name = "\r\n"@ + "USN:"@;
            let between = "::"@;
            let close = "\r\n"@ + "NTS:ssdp:byebye\r\n"@ + "\r\n"@;
            assert(!word.contains(':')) by {
                assert(forall|i: int| 0 <= i < word.len() ==> word[i] != ':');
            }
            assert(!word.contains('\r')) by {
                assert(forall|i: int| 0 <= i < word.len() ==> word[i] != '\r');
            }
            // a character of the word that no fixed part of the packet holds
            let distinct: int = if word == "LOCATION"@ {
                0
            } else {
                1
            };
            assert(forall|i: int| 0 <= i < lead.len() ==> lead[i] != word[distinct]);
            assert(forall|i: int| 0 <= i < before_name.len() ==> before_name[i] != word[distinct]);
            assert(forall|i: int| 0 <= i < between.len() ==> between[i] != word[distinct]);
            assert(forall|i: int| 0 <= i < close.len() ==> close[i] != word[distinct]);
            lemma_lacks_word(lead, word, distinct);
            lemma_lacks_word(before_name, word, distinct);
            lemma_lacks_word(between, word, distinct);
            lemma_lacks_word(close, word, distinct);
            let from_second_type = kind + close;
            let from_colons = between + from_second_type;
            let from_name = name + from_colons;
            let from_usn = before_name + from_name;
            let from_type = kind + from_usn;
            assert(wire =~= lead + from_type);
            if contains(wire, word) {
                lemma_no_straddle_after(lead, from_type, word);
                assert(contains(from_type, word));
                assert(from_usn[0] == '\r');
                lemma_no_straddle_before(kind, from_usn, word);
                assert(contains(from_usn, word));
                assert(before_name.last() == ':');
                lemma_no_straddle_after(before_name, from_name, word);
                assert(contains(from_name, word));
                assert(from_colons[0] == ':');
                lemma_no_straddle_before(name, from_colons, word);
                assert(contains(from_colons, word));
                lemma_no_straddle_after(between, from_second_type, word);
                assert(contains(from_second_type, word));
                assert(close[0] == '\r');
                lemma_no_straddle_before(kind, close, word);
            }
        },
        _ => {},
    }
}

/// The lines of an answer to a search, without their line endings; the
/// last one is the empty line.
pub open spec fn response_lines(
    desc_url: Seq<char>,
    server_ua: Seq<char>,
    name: Seq<char>,
    device_type: Seq<char>,
    max_age: usize,
    date: Seq<char>,
) -> Seq<Seq<char>> {
    seq![
        "HTTP/1.1 200 OK"@,
        "CACHE-CONTROL:max-age="@ + decimal(max_age as nat),
        "DATE: "@ + date,
        "ST: "@ + device_type,
        "USN:"@ + name + "::"@ + device_type,
        "EXT:"@,
        "SERVER: "@ + server_ua,
        "LOCATION:"@ + desc_url,
        "Content-Length: 0"@,
        Seq::<char>::empty(),
    ]
}

/// Ten lines, joined, are the lines in order, each with its line ending.
proof fn lemma_join_of_ten(all: Seq<Seq<char>>)
    requires
        all.len() == 10,
    ensures
        join_lines(all) == all[0] + "\r\n"@ + (all[1] + "\r\n"@ + (all[2] + "\r\n"@ + (all[3]
            + "\r\n"@ + (all[4] + "\r\n"@ + (all[5] + "\r\n"@ + (all[6] + "\r\n"@ + (all[7]
            + "\r\n"@ + (all[8] + "\r\n"@ + (all[9] + "\r\n"@))))))))),
{
    let end = "\r\n"@;
    let none = all.skip(9).skip(1);
    assert(none =~= Seq::<Seq<char>>::empty());
    assert(join_lines(none) =~= Seq::<char>::empty());
    assert(join_lines(all.skip(9)) =~= all[9] + end) by {
        assert(all.skip(9)[0] == all[9]);
    }
    assert(join_lines(all.skip(8)) == all[8] + end + join_lines(all.skip(9))) by {
        assert(all.skip(8).skip(1) =~= all.skip(9));
    }
    assert(join_lines(all.skip(7)) == all[7] + end + join_lines(all.skip(8))) by {
        assert(all.skip(7).skip(1) =~= all.skip(8));
    }
    assert(join_lines(all.skip(6)) == all[6] + end + join_lines(all.skip(7))) by {
        assert(all.skip(6).skip(1) =~= all.skip(7));
    }
    assert(join_lines(all.skip(5)) == all[5] + end + join_lines(all.skip(6))) by {
        assert(all.skip(5).skip(1) =~= all.skip(6));
    }
    assert(join_lines(all.skip(4)) == all[4] + end + join_lines(all.skip(5))) by {
        assert(all.skip(4).skip(1) =~= all.skip(5));
    }
    assert(join_lines(all.skip(3)) == all[3] + end + join_lines(all.skip(4))) by {
        assert(all.skip(3).skip(1) =~= all.skip(4));
    }
    assert(join_lines(all.skip(2)) == all[2] + end + join_lines(all.skip(3))) by {
        assert(all.skip(2).skip(1) =~= all.skip(3));
    }
    assert(join_lines(all.skip(1)) == all[1] + end + join_lines(all.skip(2))) by {
        assert(all.skip(1).skip(1) =~= all.skip(2));
    }
}

/// The three header lines of an answer that are fixed, as a line and its
/// line ending; and no fixed part of a line holds a line feed.
proof fn lemma_fixed_response_lines()
    ensures
        "HTTP/1.1 200 OK\r\n"@ == "HTTP/1.1 200 OK"@ + "\r\n"@,
        "EXT:\r\n"@ == "EXT:"@ + "\r\n"@,
        "Content-Length: 0\r\n"@ == "Content-Length: 0"@ + "\r\n"@,
        is_one_line("HTTP/1.1 200 OK"@),
        is_one_line("CACHE-CONTROL:max-age="@),
        is_one_line("DATE: "@),
        is_one_line("ST: "@),
        is_one_line("USN:"@),
        is_one_line("::"@),
        is_one_line("EXT:"@),
        is_one_line("SERVER: "@),
        is_one_line("LOCATION:"@),
        is_one_line("Content-Length: 0"@),
{
    reveal_strlit("\r\n");
    reveal_strlit("HTTP/1.1 200 OK\r\n");
    reveal_strlit("HTTP/1.1 200 OK");
    reveal_strlit("CACHE-CONTROL:max-age=");
    reveal_strlit("DATE: ");
    reveal_strlit("ST: ");
    reveal_strlit("USN:");
    reveal_strlit("::");
    reveal_strlit("EXT:\r\n");
    reveal_strlit("EXT:");
    reveal_strlit("SERVER: ");
    reveal_strlit("LOCATION:");
    reveal_strlit("Content-Length: 0\r\n");
    reveal_strlit("Content-Length: 0");
    assert("HTTP/1.1 200 OK\r\n"@ =~= "HTTP/1.1 200 OK"@ + "\r\n"@);
    assert("EXT:\r\n"@ =~= "EXT:"@ + "\r\n"@);
    assert("Content-Length: 0\r\n"@ =~= "Content-Length: 0"@ + "\r\n"@);
}

/// Texts that are one line each are one line when put together.
proof fn lemma_one_line_joined(a: Seq<char>, b: Seq<char>)
    requires
        is_one_line(a),
        is_one_line(b),
    ensures
        is_one_line(a + b),
{
    assert forall|k: int| 0 <= k < (a + b).len() implies (a + b)[k] != '\n' by {
        if k < a.len() {
            assert((a + b)[k] == a[k]);
        } else {
            assert((a + b)[k] == b[k - a.len()]);
        }
    }
}

/// An answer to a search whose fields and date hold no line feed is made
/// of ten lines: the status line, eight header lines in their order, and
/// the empty line.
#[verifier::rlimit(40)]
pub proof fn lemma_response_lines(packet: SSDPPacket, date: Seq<char>)
    requires
        is_one_line(date),
        packet matches SSDPPacket::Response { desc_url, server_ua, unique_device_name, device_type, .. }
            && is_one_line(desc_url@) && is_one_line(server_ua@) && is_one_line(
            unique_device_name@,
        ) && is_one_line(device_type@),
    ensures
        packet matches SSDPPacket::Response {
            desc_url,
            server_ua,
            unique_device_name,
            device_type,
            cache_max_age,
        } && lines(packet.wire(date)) == response_lines(
            desc_url@,
            server_ua@,
            unique_device_name@,
            device_type@,
            cache_max_age,
            date,
        ),
{
    match packet {
        SSDPPacket::Response {
            desc_url,
            server_ua,
            unique_device_name,
            device_type,
            cache_max_age,
        } => {
            let all = response_lines(
                desc_url@,
                server_ua@,
                unique_device_name@,
                device_type@,
                cache_max_age,
                date,
            );
            let end = "\r\n"@;
            lemma_fixed_response_lines();
            lemma_decimal_is_numeral(cache_max_age as nat);
            let digits = decimal(cache_max_age as nat);
            assert(is_one_line(digits)) by {
                assert forall|k: int| 0 <= k < digits.len() implies digits[k] != '\n' by {
                    assert(is_decimal_digit(digits[k]));
                }
            }
            lemma_one_line_joined("CACHE-CONTROL:max-age="@, digits);
            lemma_one_line_joined("DATE: "@, date);
            lemma_one_line_joined("ST: "@, device_type@);
            lemma_one_line_joined("USN:"@, unique_device_name@);
            lemma_one_line_joined("USN:"@ + unique_device_name@, "::"@);
            lemma_one_line_joined("USN:"@ + unique_device_name@ + "::"@, device_type@);
            lemma_one_line_joined("SERVER: "@, server_ua@);
            lemma_one_line_joined("LOCATION:"@, desc_url@);
            assert forall|i: int| 0 <= i < all.len() implies is_one_line(#[trigger] all[i]) by {
                if i == 0 {
                } else if i == 1 {
                } else if i == 2 {
                } else if i == 3 {
                } else if i == 4 {
                } else if i == 5 {
                } else if i == 6 {
                } else if i == 7 {
                } else if i == 8 {
                } else {
                    assert(i == 9);
                }
            }
            lemma_lines_of_joined(all);
            lemma_join_of_ten(all);
            assert(packet.wire(date) =~= join_lines(all));
        },
        _ => {},
    }
}

/// An answer to a search whose fields hold no line feed has one `DATE`
/// line and no more: its third line, which is `DATE: `, the date and time
/// of the stamp, and `GMT` in place of the stamp's offset.
pub proof fn lemma_one_date_line(packet: SSDPPacket, stamp: Seq<char>)
    requires
        is_utc_stamp(stamp),
        packet matches SSDPPacket::Response { desc_url, server_ua, unique_device_name, device_type, .. }
            && is_one_line(desc_url@) && is_one_line(server_ua@) && is_one_line(
            unique_device_name@,
        ) && is_one_line(device_type@),
    ensures
        lines(packet.wire(http_date_of(stamp))).len() == 10,
        lines(packet.wire(http_date_of(stamp)))[2] == "DATE: "@ + stamp.take(stamp.len() - 5)
            + "GMT"@,
        forall|i: int|
            0 <= i < 10 ==> ("DATE:"@.is_prefix_of(
                #[trigger] lines(packet.wire(http_date_of(stamp)))[i],
            ) <==> i == 2),
{
    let date = http_date_of(stamp);
    lemma_http_date_ends_in_gmt(stamp);
    reveal_strlit("GMT");
    assert(is_one_line(date)) by {
        assert forall|k: int| 0 <= k < date.len() implies date[k] != '\n' by {
            if k < stamp.len() - 5 {
                assert(date[k] == stamp[k]);
                assert(is_stamp_char(stamp[k]));
            }
        }
    }
    lemma_response_lines(packet, date);
    reveal_strlit("DATE:");
    reveal_strlit("DATE: ");
    reveal_strlit("HTTP/1.1 200 OK");
    reveal_strlit("CACHE-CONTROL:max-age=");
    reveal_strlit("ST: ");
    reveal_strlit("USN:");
    reveal_strlit("EXT:");
    reveal_strlit("SERVER: ");
    reveal_strlit("LOCATION:");
    reveal_strlit("Content-Length: 0");
    let all = lines(packet.wire(date));
    let word = "DATE:"@;
    assert(all[2].subrange(0, 5) =~= word);
    assert forall|i: int| 0 <= i < 10 && i != 2 implies !word.is_prefix_of(#[trigger] all[i]) by {
        if word.is_prefix_of(all[i]) {
            assert(all[i].subrange(0, 5)[0] == word[0]);
            assert(all[i][0] == 'D');
        }
    }
    assert("DATE: "@ + date =~= "DATE: "@ + stamp.take(stamp.len() - 5) + "GMT"@);
}

/// A word that occurs in two texts put together occurs in one of them,
/// where the first ends in a character that the word holds at one place
/// only, and the character before it is not the one that the word holds
/// before that place.
pub proof fn lemma_no_straddle_after_mark(a: Seq<char>, b: Seq<char>, word: Seq<char>, k: int)
    requires
        a.len() > 0,
        1 <= k < word.len(),
        forall|j: int| 0 <= j < word.len() && word[j] == a.last() ==> j == k,
        a.len() < 2 || a[a.len() - 2] != word[k - 1],
        contains(a + b, word),
    ensures
        contains(a, word) || contains(b, word),
{
    let i = choose|i: int| occurs_at(a + b, word, i);
    let window = (a + b).subrange(i, i + word.len());
    if i + word.len() <= a.len() {
        assert(a.subrange(i, i + word.len()) =~= window);
        assert(occurs_at(a, word, i));
    } else if i >= a.len() {
        assert(b.subrange(i - a.len(), i - a.len() + word.len()) =~= window);
        assert(occurs_at(b, word, i - a.len()));
    } else {
        let at = a.len() - 1 - i;
        assert(window[at] == a.last());
        assert(word[at] == a.last());
        assert(at == k);
        assert(window[at - 1] == a[a.len() - 2]);
    }
}

/// A word that occurs in two texts put together occurs in one of them,
/// where the second begins with a character that the word holds at one
/// place only, and the character after it is not the one that the word
/// holds after that place.
pub proof fn lemma_no_straddle_before_mark(a: Seq<char>, b: Seq<char>, word: Seq<char>, k: int)
    requires
        b.len() > 0,
        0 <= k < word.len() - 1,
        forall|j: int| 0 <= j < word.len() && word[j] == b[0] ==> j == k,
        b.len() < 2 || b[1] != word[k + 1],
        contains(a + b, word),
    ensures
        contains(a, word) || contains(b, word),
{
    let i = choose|i: int| occurs_at(a + b, word, i);
    let window = (a + b).subrange(i, i + word.len());
    if i + word.len() <= a.len() {
        assert(a.subrange(i, i + word.len()) =~= window);
        assert(occurs_at(a, word, i));
    } else if i >= a.len() {
        assert(b.subrange(i - a.len(), i - a.len() + word.len()) =~= window);
        assert(occurs_at(b, word, i - a.len()));
    } else {
        let at = a.len() - i;
        assert(window[at] == b[0]);
        assert(word[at] == b[0]);
        assert(at == k);
        if b.len() >= 2 {
            assert(window[at + 1] == b[1]);
        } else {
            assert(i + word.len() <= a.len() + 1);
        }
    }
}

/// An announcement of presence does not say farewell: it holds the word
/// `ssdp:byebye` nowhere, unless one of its fields brings the word with it.
#[verifier::rlimit(40)]
pub proof fn lemma_alive_says_no_farewell(packet: SSDPPacket, date: Seq<char>)
    requires
        packet matches SSDPPacket::Alive { desc_url, server_ua, unique_device_name, device_type, .. }
            && !contains(desc_url@, "ssdp:byebye"@) && !contains(server_ua@, "ssdp:byebye"@)
            && !contains(unique_device_name@, "ssdp:byebye"@) && !contains(
            device_type@,
            "ssdp:byebye"@,
        ),
    ensures
        !contains(packet.wire(date), "ssdp:byebye"@),
{
    reveal_strlit("ssdp:byebye");
    reveal_strlit("NOTIFY * HTTP/1.1\r\n");
    reveal_strlit("HOST:239.255.255.250:1900\r\n");
    reveal_strlit("CACHE-CONTROL:max-age=");
    reveal_strlit("LOCATION:");
    reveal_strlit("SERVER: ");
    reveal_strlit("NT:");
    reveal_strlit("USN:");
    reveal_strlit("::");
    reveal_strlit("\r\n");
    reveal_strlit("NTS:ssdp:alive\r\n");
    let word = "ssdp:byebye"@;
    let wire = packet.wire(date);
    match packet {
        SSDPPacket::Alive {
            desc_url,
            server_ua,
            unique_device_name,
            device_type,
            cache_max_age,
        } => {
            let end = "\r\n"@;
            let digits = decimal(cache_max_age as nat);
            let lead = notify_head() + "CACHE-CONTROL:max-age="@;
            let location = end + "LOCATION:"@;
            let server = end + "SERVER: "@;
            let nt = end + "NT:"@;
            let usn = end + "USN:"@;
            let colons = "::"@;
            let close = end + "NTS:ssdp:alive\r\n"@ + end;
            lemma_decimal_is_numeral(cache_max_age as nat);
            assert forall|i: int| 0 <= i < digits.len() implies digits[i] != word[5] by {
                assert(is_decimal_digit(digits[i]));
            }
            assert(forall|i: int| 0 <= i < lead.len() ==> lead[i] != word[5]);
            assert(forall|i: int| 0 <= i < location.len() ==> location[i] != word[5]);
            assert(forall|i: int| 0 <= i < server.len() ==> server[i] != word[5]);
            assert(forall|i: int| 0 <= i < nt.len() ==> nt[i] != word[5]);
            assert(forall|i: int| 0 <= i < usn.len() ==> usn[i] != word[5]);
            assert(forall|i: int| 0 <= i < colons.len() ==> colons[i] != word[5]);
            assert(forall|i: int| 0 <= i < close.len() ==> close[i] != word[5]);
            lemma_lacks_word(digits, word, 5);
            lemma_lacks_word(lead, word, 5);
            lemma_lacks_word(location, word, 5);
            lemma_lacks_word(server, word, 5);
            lemma_lacks_word(nt, word, 5);
            lemma_lacks_word(usn, word, 5);
            lemma_lacks_word(colons, word, 5);
            lemma_lacks_word(close, word, 5);
            assert(!word.contains('\r')) by {
                assert(forall|i: int| 0 <= i < word.len() ==> word[i] != '\r');
            }
            assert(!word.contains('=')) by {
                assert(forall|i: int| 0 <= i < word.len() ==> word[i] != '=');
            }
            assert(!word.contains(' ')) by {
                assert(forall|i: int| 0 <= i < word.len() ==> word[i] != ' ');
            }
            assert(forall|j: int| 0 <= j < word.len() && word[j] == ':' ==> j == 4);
            let from_second_type = device_type@ + close;
            let from_colons = colons + from_second_type;
            let from_name = unique_device_name@ + from_colons;
            let from_usn = usn + from_name;
            let from_type = device_type@ + from_usn;
            let from_nt = nt + from_type;
            let from_agent = server_ua@ + from_nt;
            let from_server = server + from_agent;
            let from_url = desc_url@ + from_server;
            let from_location = location + from_url;
            let from_digits = digits + from_location;
            assert(wire =~= lead + from_digits);
            if contains(wire, word) {
                assert(lead.last() == '=');
                lemma_no_straddle_after(lead, from_digits, word);
                assert(from_location[0] == '\r');
                lemma_no_straddle_before(digits, from_location, word);
                assert(location.last() == ':' && location[location.len() - 2] == 'N');
                lemma_no_straddle_after_mark(location, from_url, word, 4);
                assert(from_server[0] == '\r');
                lemma_no_straddle_before(desc_url@, from_server, word);
                assert(server.last() == ' ');
                lemma_no_straddle_after(server, from_agent, word);
                assert(from_nt[0] == '\r');
                lemma_no_straddle_before(server_ua@, from_nt, word);
                assert(nt.last() == ':' && nt[nt.len() - 2] == 'T');
                lemma_no_straddle_after_mark(nt, from_type, word, 4);
                assert(from_usn[0] == '\r');
                lemma_no_straddle_before(device_type@, from_usn, word);
                assert(usn.last() == ':' && usn[usn.len() - 2] == 'N');
                lemma_no_straddle_after_mark(usn, from_name, word, 4);
                assert(from_colons[0] == ':' && from_colons[1] == ':');
                lemma_no_straddle_before_mark(unique_device_name@, from_colons, word, 4);
                assert(colons.last() == ':' && colons[colons.len() - 2] == ':');
                lemma_no_straddle_after_mark(colons, from_second_type, word, 4);
                assert(close[0] == '\r');
                lemma_no_straddle_before(device_type@, close, word);
            }
        },
        _ => {},
    }
}

} // verus!
