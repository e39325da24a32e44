//! Reading the datagrams that arrive on the SSDP channel, and deciding
//! which of them are searches that are answered.

use crate::lossy::{from_utf8_lossy, utf8_lossy};
use crate::text::{chars_of, lemma_upper_idempotent, same_text, string_of, to_upper, upper};
use vstd::prelude::*;

verus! {

/// The most header lines that a datagram may hold.
pub const MAX_HEADERS: usize = 16;

/// Why a datagram is no request.
#[derive(Debug, Clone, Copy, PartialEq, Eq, Structural)]
pub enum SsdpError {
    /// The datagram is not the beginning of an HTTP request.
    Malformed,
    /// The datagram ends before a request method.
    NoSSDPMethod,
}

impl SsdpError {
    /// A description for logs.
    pub fn message(&self) -> (s: &'static str)
        ensures
            s@ == match *self {
                SsdpError::Malformed => "Failed to parse packet as SSDP."@,
                SsdpError::NoSSDPMethod => "No SSDP method in packet."@,
            },
    {
        match self {
            SsdpError::Malformed => "Failed to parse packet as SSDP.",
            SsdpError::NoSSDPMethod => "No SSDP method in packet.",
        }
    }
}

/// The headers in order of arrival as a map: a later header of the same
/// name replaces an earlier one.
pub open spec fn map_of(entries: Seq<(Seq<char>, Seq<char>)>) -> Map<Seq<char>, Seq<char>>
    decreases entries.len(),
{
    if entries.len() == 0 {
        Map::empty()
    } else {
        map_of(entries.drop_last()).insert(entries.last().0, entries.last().1)
    }
}

/// The headers of a request, by name.
pub struct HeaderMap {
    entries: Vec<(String, String)>,
}

impl HeaderMap {
    /// The headers as a map from name to value.
    pub closed spec fn view(self) -> Map<Seq<char>, Seq<char>> {
        map_of(Seq::new(self.entries@.len(), |i: int| (self.entries@[i].0@, self.entries@[i].1@)))
    }

    spec fn pairs(self) -> Seq<(Seq<char>, Seq<char>)> {
        Seq::new(self.entries@.len(), |i: int| (self.entries@[i].0@, self.entries@[i].1@))
    }

    /// A map without headers.
    pub fn new() -> (headers: HeaderMap)
        ensures
            headers@ == Map::<Seq<char>, Seq<char>>::empty(),
    {
        let headers = HeaderMap { entries: Vec::new() };
        assert(headers.pairs() =~= Seq::empty());
        headers
    }

    /// Sets the header `name` to `value`.
    pub fn insert(&mut self, name: String, value: String)
        ensures
            final(self)@ == old(self)@.insert(name@, value@),
    {
        let ghost before = self.pairs();
        self.entries.push((name, value));
        assert(self.pairs().drop_last() =~= before);
        assert(self.pairs().last() == (name@, value@));
    }

    /// The value of the header `name`.
    pub fn get(&self, name: &str) -> (value: Option<&String>)
        ensures
            match value {
                Some(text) => self@.dom().contains(name@) && self@[name@] == text@,
                None => !self@.dom().contains(name@),
            },
    {
        let wanted = name.to_owned();
        let mut i: usize = self.entries.len();
        assert(self.pairs().take(i as int) =~= self.pairs());
        while i > 0
            invariant
                i <= self.entries@.len(),
                wanted@ == name@,
                map_of(self.pairs().take(i as int)).dom().contains(name@) == self@.dom().contains(
                    name@,
                ),
                self@.dom().contains(name@) ==> map_of(self.pairs().take(i as int))[name@]
                    == self@[name@],
            decreases i,
        {
            let ghost here = self.pairs().take(i as int);
            assert(here.drop_last() =~= self.pairs().take(i - 1));
            assert(here.last() == (self.entries@[i - 1].0@, self.entries@[i - 1].1@));
            i -= 1;
            if self.entries[i].0 == wanted {
                return Some(&self.entries[i].1);
            }
        }
        None
    }

    /// Whether there is a header `name`.
    pub fn contains_key(&self, name: &str) -> (b: bool)
        ensures
            b == self@.dom().contains(name@),
    {
        self.get(name).is_some()
    }
}

/// Makes `httparse::Error` known as a type. Nothing is said of its values:
/// every one of them means that the parser refused the buffer.
#[verifier::external_type_specification]
#[verifier::external_body]
pub struct ExHttparseError(httparse::Error);

/// What comes back from `httparse` for a buffer and a number of header
/// slots: nothing where it refuses the buffer; otherwise the request method,
/// where the buffer holds one, and all the slots in order, the name and the
/// value of a header in each slot that was filled and an empty name in
/// every other one.
pub uninterp spec fn httparse_request(buffer: Seq<u8>, slots: nat) -> Option<
    (Option<Seq<char>>, Seq<(Seq<char>, Seq<u8>)>),
>;

/// The views of the header slots.
pub open spec fn slot_views(slots: Seq<(String, Vec<u8>)>) -> Seq<(Seq<char>, Seq<u8>)> {
    Seq::new(slots.len(), |i: int| (slots[i].0@, slots[i].1@))
}

/// The view of a request method.
pub open spec fn method_view(method: Option<String>) -> Option<Seq<char>> {
    match method {
        Some(name) => Some(name@),
        None => None,
    }
}

/// Calls `httparse::Request::new` and `httparse::Request::parse` on `slots`
/// empty headers, and copies out the method and every slot.
///
/// Nothing is proved of the parser. The contract only gives its result a
/// name, which rests on the parser being a function of the buffer and of
/// the number of slots. A buffer that ends before the request does is not
/// refused: what was read of it comes back.
#[verifier::external_body]
fn parse_request(buffer: &[u8], slots: usize) -> (r: Result<
    (Option<String>, Vec<(String, Vec<u8>)>),
    httparse::Error,
>)
    requires
        slots <= MAX_HEADERS,
    ensures
        match r {
            Ok((method, filled)) => httparse_request(buffer@, slots as nat) == Some(
                (method_view(method), slot_views(filled@)),
            ),
            Err(_) => httparse_request(buffer@, slots as nat) is None,
        },
{
    let mut headers = vec![httparse::EMPTY_HEADER; slots];
    let mut request = httparse::Request::new(&mut headers);
    request.parse(buffer)?;
    let method = request.method.map(String::from);
    let filled = headers.iter().map(|h| (String::from(h.name), h.value.to_vec())).collect();
    Ok((method, filled))
}

/// Number of slots before the first one with an empty name.
pub open spec fn filled_len(slots: Seq<(Seq<char>, Seq<u8>)>) -> nat
    decreases slots.len(),
{
    if slots.len() == 0 || slots[0].0.len() == 0 {
        0
    } else {
        1 + filled_len(slots.skip(1))
    }
}

/// The header of a slot as it is kept: the name in upper case, the value as
/// text.
pub open spec fn kept_header(slot: (Seq<char>, Seq<u8>)) -> (Seq<char>, Seq<char>) {
    (upper(slot.0), utf8_lossy(slot.1))
}

/// The headers that are kept of the given slots: those of the slots before
/// the first empty one.
pub open spec fn kept_headers(slots: Seq<(Seq<char>, Seq<u8>)>) -> Seq<(Seq<char>, Seq<char>)> {
    Seq::new(filled_len(slots), |i: int| kept_header(slots[i]))
}

/// The request that is made of what the parser found: its method and its
/// headers by upper-case name. Without a method there is no request.
pub open spec fn request_of(
    method: Option<Seq<char>>,
    slots: Seq<(Seq<char>, Seq<u8>)>,
) -> Result<(Seq<char>, Map<Seq<char>, Seq<char>>), SsdpError> {
    match method {
        Some(name) => Ok((name, map_of(kept_headers(slots)))),
        None => Err(SsdpError::NoSSDPMethod),
    }
}

/// The request that a datagram holds.
pub open spec fn parsed(buffer: Seq<u8>) -> Result<
    (Seq<char>, Map<Seq<char>, Seq<char>>),
    SsdpError,
> {
    match httparse_request(buffer, MAX_HEADERS as nat) {
        Some((method, slots)) => request_of(method, slots),
        None => Err(SsdpError::Malformed),
    }
}

/// Whether an executable result stands for the given mathematical one.
pub open spec fn same_request(
    r: Result<(String, HeaderMap), SsdpError>,
    expected: Result<(Seq<char>, Map<Seq<char>, Seq<char>>), SsdpError>,
) -> bool {
    match (r, expected) {
        (Ok((method, headers)), Ok((name, map))) => method@ == name && headers@ == map,
        (Err(e), Err(f)) => e == f,
        _ => false,
    }
}

/// Whether a name holds no ASCII lower-case letter.
pub open spec fn is_upper_case(name: Seq<char>) -> bool {
    upper(name) == name
}

/// The slots before the first empty one are `n`, where the first `n` have a
/// name and the next one, if there is one, has none.
pub proof fn lemma_filled_len_is(slots: Seq<(Seq<char>, Seq<u8>)>, n: int)
    requires
        0 <= n <= slots.len(),
        forall|k: int| 0 <= k < n ==> slots[k].0.len() > 0,
        n == slots.len() || slots[n].0.len() == 0,
    ensures
        filled_len(slots) == n,
    decreases n,
{
    if n > 0 {
        lemma_filled_len_is(slots.skip(1), n - 1);
    }
}

/// Every name in a map of kept headers is in upper case.
pub proof fn lemma_kept_names_upper(entries: Seq<(Seq<char>, Seq<char>)>)
    requires
        forall|i: int| 0 <= i < entries.len() ==> is_upper_case(#[trigger] entries[i].0),
    ensures
        forall|name: Seq<char>| #[trigger]
            map_of(entries).dom().contains(name) ==> is_upper_case(name),
    decreases entries.len(),
{
    if entries.len() > 0 {
        let earlier = entries.drop_last();
        assert forall|i: int| 0 <= i < earlier.len() implies is_upper_case(
            #[trigger] earlier[i].0,
        ) by {
            assert(earlier[i] == entries[i]);
        }
        lemma_kept_names_upper(earlier);
        assert(is_upper_case(entries[entries.len() - 1].0));
        assert forall|name: Seq<char>| #[trigger]
            map_of(entries).dom().contains(name) implies is_upper_case(name) by {
            if name != entries.last().0 {
                assert(map_of(earlier).dom().contains(name));
            }
        }
    }
}

/// Whatever the parser finds, every header of the request that is made of
/// it is kept under a name in upper case.
pub proof fn lemma_request_names_upper(
    method: Option<Seq<char>>,
    slots: Seq<(Seq<char>, Seq<u8>)>,
)
    ensures
        request_of(method, slots) matches Ok((_, headers)) ==> forall|name: Seq<char>| #[trigger]
            headers.dom().contains(name) ==> is_upper_case(name),
{
    let kept = kept_headers(slots);
    assert forall|i: int| 0 <= i < kept.len() implies is_upper_case(#[trigger] kept[i].0) by {
        lemma_upper_idempotent(slots[i].0);
    }
    lemma_kept_names_upper(kept);
}

/// Every header of the request that a datagram holds is kept under a name
/// in upper case.
pub proof fn lemma_parsed_names_upper(buffer: Seq<u8>)
    ensures
        parsed(buffer) matches Ok((_, headers)) ==> forall|name: Seq<char>| #[trigger]
            headers.dom().contains(name) ==> is_upper_case(name),
{
    match httparse_request(buffer, MAX_HEADERS as nat) {
        Some((method, slots)) => {
            lemma_request_names_upper(method, slots);
        },
        None => {},
    }
}

/// Makes a request of what the parser found: the method, and the headers of
/// the slots before the first empty one.
pub fn request_from(method: Option<String>, slots: Vec<(String, Vec<u8>)>) -> (r: Result<
    (String, HeaderMap),
    SsdpError,
>)
    ensures
        same_request(r, request_of(method_view(method), slot_views(slots@))),
        r matches Ok((_, headers)) ==> forall|name: Seq<char>| #[trigger]
            headers@.dom().contains(name) ==> is_upper_case(name),
{
    let method = match method {
        Some(name) => name,
        None => {
            return Err(SsdpError::NoSSDPMethod);
        },
    };
    let ghost all = slot_views(slots@);
    let mut headers = HeaderMap::new();
    let ghost mut kept: Seq<(Seq<char>, Seq<char>)> = Seq::empty();
    let mut i: usize = 0;
    while i < slots.len() && !slots[i].0.as_str().is_empty()
        invariant
            i <= slots.len(),
            all == slot_views(slots@),
            forall|k: int| 0 <= k < i ==> all[k].0.len() > 0,
            kept == Seq::new(i as nat, |k: int| kept_header(all[k])),
            headers@ == map_of(kept),
        decreases slots.len() - i,
    {
        let name_chars = chars_of(slots[i].0.as_str());
        let upper_chars = to_upper(name_chars.as_slice());
        let name = string_of(upper_chars.as_slice());
        let value = from_utf8_lossy(slots[i].1.as_slice());
        proof {
            let next = kept.push((name@, value@));
            assert(next.drop_last() =~= kept);
            assert(next =~= Seq::new((i + 1) as nat, |k: int| kept_header(all[k])));
            kept = next;
        }
        headers.insert(name, value);
        i += 1;
    }
    proof {
        lemma_filled_len_is(all, i as int);
        assert(kept =~= kept_headers(all));
        assert forall|k: int| 0 <= k < kept.len() implies is_upper_case(#[trigger] kept[k].0) by {
            lemma_upper_idempotent(all[k].0);
        }
        lemma_kept_names_upper(kept);
    }
    Ok((method, headers))
}

/// Reads a datagram as an SSDP request: the method, and the headers by
/// upper-case name. A datagram may end before the request does.
pub fn parse_ssdp(buffer: &[u8]) -> (r: Result<(String, HeaderMap), SsdpError>)
    ensures
        same_request(r, parsed(buffer@)),
        r matches Ok((_, headers)) ==> forall|name: Seq<char>| #[trigger]
            headers@.dom().contains(name) ==> is_upper_case(name),
{
    match parse_request(buffer, MAX_HEADERS) {
        Ok((method, slots)) => request_from(method, slots),
        Err(_) => Err(SsdpError::Malformed),
    }
}

/// The search targets that are answered.
pub open spec fn is_answered_target(target: Seq<char>) -> bool {
    ||| target == "urn:schemas-upnp-org:device:MediaServer:1"@
    ||| target == "ssdp:all"@
    ||| target == "upnp:rootdevice"@
}

/// Whether a request is a search that is answered: its method is
/// `M-SEARCH`, and its `ST` header names one of the answered targets.
pub open spec fn is_answered(method: Seq<char>, headers: Map<Seq<char>, Seq<char>>) -> bool {
    &&& method == "M-SEARCH"@
    &&& headers.dom().contains("ST"@)
    &&& is_answered_target(headers["ST"@])
}

/// Decides whether a request is answered.
pub fn should_respond(method: &str, headers: &HeaderMap) -> (b: bool)
    ensures
        b == is_answered(method@, headers@),
{
    match headers.get("ST") {
        Some(target) => same_text(method, "M-SEARCH") && (same_text(
            target.as_str(),
            "urn:schemas-upnp-org:device:MediaServer:1",
        ) || same_text(target.as_str(), "ssdp:all") || same_text(
            target.as_str(),
            "upnp:rootdevice",
        )),
        None => false,
    }
}

/// What is done about a datagram.
#[derive(Debug, Clone, Copy, PartialEq, Eq, Structural)]
pub enum Verdict {
    /// It is a search for the server: an answer goes to its sender.
    Respond,
    /// It is some other request: nothing is sent.
    Ignore,
    /// It is no request: the reason is logged, and nothing is sent.
    Reject(SsdpError),
}

/// What is done about a datagram that was read as the given request.
pub open spec fn verdict_on(
    request: Result<(Seq<char>, Map<Seq<char>, Seq<char>>), SsdpError>,
) -> Verdict {
    match request {
        Ok((method, headers)) => if is_answered(method, headers) {
            Verdict::Respond
        } else {
            Verdict::Ignore
        },
        Err(e) => Verdict::Reject(e),
    }
}

/// Decides what is done about a datagram that was read as `request`.
pub fn judge(request: &Result<(String, HeaderMap), SsdpError>) -> (v: Verdict)
    ensures
        match *request {
            Ok((method, headers)) => v == verdict_on(
                Ok::<(Seq<char>, Map<Seq<char>, Seq<char>>), SsdpError>((method@, headers@)),
            ),
            Err(e) => v == Verdict::Reject(e),
        },
{
    match request {
        Ok((method, headers)) => {
            if should_respond(method.as_str(), headers) {
                Verdict::Respond
            } else {
                Verdict::Ignore
            }
        },
        Err(e) => Verdict::Reject(*e),
    }
}

/// Reads a datagram and decides what is done about it.
pub fn handle_datagram(buffer: &[u8]) -> (v: Verdict)
    ensures
        v == verdict_on(parsed(buffer@)),
{
    let request = parse_ssdp(buffer);
    judge(&request)
}

} // verus!
