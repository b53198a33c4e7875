//! Data model of ICAP messages: methods, versions, parser states, header
//! maps, encapsulated sections and the assembled message value, together with
//! the mathematical views the parser's contracts are stated over.

use vstd::prelude::*;
use crate::bytebuf::bytes_view;
use crate::text::{vec_to_string, lemma_ascii_decode};
use vstd::utf8::decode_utf8;
use vstd::string::StringSliceAdditionalSpecFns;

verus! {

/// ICAP request method.
#[derive(Debug, Clone, Copy, PartialEq, Eq, Structural)]
pub enum Method {
    ReqMod,
    RespMod,
    Options,
}

/// ICAP protocol version accepted by this parser.
#[derive(Debug, Clone, Copy, PartialEq, Eq, Structural)]
pub enum Version {
    V1_0,
    V1_1,
}

/// The stage the parser has reached on the message it is currently reading.
#[derive(Debug, Clone, Copy, PartialEq, Eq, Structural)]
pub enum State {
    StartLine,
    Headers,
    EncapsulatedHeader,
    Body,
    Complete,
}

/// Kind of an encapsulated section, as named in the `Encapsulated` header.
#[derive(Debug, Clone, Copy, PartialEq, Eq, Structural)]
pub enum SectionType {
    NullBody,
    RequestHeader,
    RequestBody,
    ResponseHeader,
    ResponseBody,
    OptionsBody,
}

/// A protocol violation that poisons the parser.
#[derive(Debug, Clone, Copy, PartialEq, Eq, Structural)]
pub enum Error {
    InvalidMethod,
    InvalidVersion,
    InvalidStatus,
    InvalidFormat,
    MessageTooLarge,
    MissingEncapsulated,
    InvalidEncapsulated,
    InvalidChunkSize,
    InvalidChunkEncoding,
    InvalidMessage,
}

impl Error {
    /// The wire-visible name of this error, for the caller's logs.
    pub fn wire_name(&self) -> (r: &'static str)
        ensures
            r@ == match *self {
                Error::InvalidMethod => "invalid-method"@,
                Error::InvalidVersion => "invalid-version"@,
                Error::InvalidStatus => "invalid-status"@,
                Error::InvalidFormat => "invalid-format"@,
                Error::MessageTooLarge => "message-too-large"@,
                Error::MissingEncapsulated => "missing-encapsulated"@,
                Error::InvalidEncapsulated => "invalid-encapsulated"@,
                Error::InvalidChunkSize => "invalid-chunk-size"@,
                Error::InvalidChunkEncoding => "invalid-chunk-encoding"@,
                Error::InvalidMessage => "invalid-message"@,
            },
    {
        match *self {
            Error::InvalidMethod => "invalid-method",
            Error::InvalidVersion => "invalid-version",
            Error::InvalidStatus => "invalid-status",
            Error::InvalidFormat => "invalid-format",
            Error::MessageTooLarge => "message-too-large",
            Error::MissingEncapsulated => "missing-encapsulated",
            Error::InvalidEncapsulated => "invalid-encapsulated",
            Error::InvalidChunkSize => "invalid-chunk-size",
            Error::InvalidChunkEncoding => "invalid-chunk-encoding",
            Error::InvalidMessage => "invalid-message",
        }
    }
}

/// Largest accepted header count.
pub const MAX_HEADERS: usize = 100;

/// Largest accepted header name length, in bytes.
pub const MAX_HEADER_NAME_LEN: usize = 100;

/// Largest accepted header value length after trimming, in bytes.
pub const MAX_HEADER_VALUE_LEN: usize = 4096;

/// Largest accepted line length: name, value and a small delimiter allowance.
pub const MAX_LINE_LEN: usize = 4200;

/// ASCII lower-casing of one byte.
pub open spec fn lower_byte(b: u8) -> u8 {
    if 65 <= b <= 90 {
        (b + 32) as u8
    } else {
        b
    }
}

/// ASCII lower-casing of a byte sequence.
pub open spec fn lower_bytes(s: Seq<u8>) -> Seq<u8> {
    s.map_values(|b: u8| lower_byte(b))
}

/// Bytes allowed in a header name, per the RFC 7230 token rule.
pub open spec fn is_token_byte(b: u8) -> bool {
    ||| (48 <= b <= 57)  // digits
    ||| (97 <= b <= 122)  // lower-case letters
    ||| (65 <= b <= 90)  // upper-case letters
    ||| b == 33 || b == 35 || b == 36 || b == 37 || b == 38 || b == 39 || b == 42 || b == 43
        || b == 45 || b == 46 || b == 94 || b == 95 || b == 96 || b == 124 || b == 126
}

/// Bytes allowed in a header value: horizontal tab and printable ASCII.
pub open spec fn is_value_byte(b: u8) -> bool {
    b == 9 || (32 <= b <= 126)
}

/// A stored header name: non-empty, within the length cap, lower-cased token
/// bytes.
pub open spec fn valid_header_name(n: Seq<u8>) -> bool {
    &&& 1 <= n.len() <= MAX_HEADER_NAME_LEN
    &&& forall|i: int| 0 <= i < n.len() ==> is_token_byte(#[trigger] n[i]) && lower_byte(n[i]) == n[i]
}

/// A stored header value: within the length cap, made of value bytes.
pub open spec fn valid_header_value(v: Seq<u8>) -> bool {
    &&& v.len() <= MAX_HEADER_VALUE_LEN
    &&& forall|i: int| 0 <= i < v.len() ==> is_value_byte(#[trigger] v[i])
}

/// Index of the first entry with the given key, if any.
pub open spec fn find_key(entries: Seq<(Seq<u8>, Seq<u8>)>, key: Seq<u8>, i: int) -> Option<int>
    decreases entries.len() - i,
{
    if i < 0 || i >= entries.len() {
        None
    } else if entries[i].0 == key {
        Some(i)
    } else {
        find_key(entries, key, i + 1)
    }
}

/// The value stored under the given key, if any.
pub open spec fn lookup(entries: Seq<(Seq<u8>, Seq<u8>)>, key: Seq<u8>) -> Option<Seq<u8>> {
    match find_key(entries, key, 0) {
        Some(i) => Some(entries[i].1),
        None => None,
    }
}

/// Insertion with replacement: an existing entry keeps its place, a new key
/// goes to the back.
pub open spec fn insert_entry(
    entries: Seq<(Seq<u8>, Seq<u8>)>,
    key: Seq<u8>,
    value: Seq<u8>,
) -> Seq<(Seq<u8>, Seq<u8>)> {
    match find_key(entries, key, 0) {
        Some(i) => entries.update(i, (key, value)),
        None => entries.push((key, value)),
    }
}

/// Every name is a stored (lower-cased) token, every value is in range, and
/// no name repeats.
pub open spec fn entries_wf(entries: Seq<(Seq<u8>, Seq<u8>)>) -> bool {
    &&& forall|i: int|
        0 <= i < entries.len() ==> valid_header_name(#[trigger] entries[i].0)
            && valid_header_value(entries[i].1)
    &&& forall|i: int, j: int|
        0 <= i < j < entries.len() ==> #[trigger] entries[i].0 != #[trigger] entries[j].0
}

pub proof fn lemma_find_key_some(entries: Seq<(Seq<u8>, Seq<u8>)>, key: Seq<u8>, i: int)
    requires
        0 <= i,
    ensures
        find_key(entries, key, i) matches Some(j) ==> i <= j < entries.len() && entries[j].0
            == key,
    decreases entries.len() - i,
{
    if i < entries.len() && entries[i].0 != key {
        lemma_find_key_some(entries, key, i + 1);
    }
}

pub proof fn lemma_find_key_none(entries: Seq<(Seq<u8>, Seq<u8>)>, key: Seq<u8>, i: int)
    requires
        0 <= i,
        find_key(entries, key, i) is None,
    ensures
        forall|j: int| i <= j < entries.len() ==> (#[trigger] entries[j]).0 != key,
    decreases entries.len() - i,
{
    if i < entries.len() && entries[i].0 != key {
        lemma_find_key_none(entries, key, i + 1);
    }
}

/// Insertion of a valid header keeps the map well formed.
pub proof fn lemma_insert_entry_wf(entries: Seq<(Seq<u8>, Seq<u8>)>, k: Seq<u8>, v: Seq<u8>)
    requires
        entries_wf(entries),
        valid_header_name(k),
        valid_header_value(v),
    ensures
        entries_wf(insert_entry(entries, k, v)),
{
    lemma_find_key_some(entries, k, 0);
    match find_key(entries, k, 0) {
        Some(i) => {
            let r = entries.update(i, (k, v));
            assert(entries[i].0 == k);
            assert forall|x: int, y: int| 0 <= x < y < r.len() implies (#[trigger] r[x]).0 != (
            #[trigger] r[y]).0 by {
                assert(r[x].0 == entries[x].0);
                assert(r[y].0 == entries[y].0);
            }
        },
        None => {
            lemma_find_key_none(entries, k, 0);
            let r = entries.push((k, v));
            assert forall|x: int, y: int| 0 <= x < y < r.len() implies (#[trigger] r[x]).0 != (
            #[trigger] r[y]).0 by {
                if y == entries.len() {
                    assert(r[x] == entries[x]);
                    assert(r[y] == (k, v));
                } else {
                    assert(r[x] == entries[x]);
                    assert(r[y] == entries[y]);
                }
            }
        },
    }
}

/// Header map of one ICAP message. Names are stored lower-cased; lookup
/// lower-cases its argument, so it is ASCII-case-insensitive.
#[derive(Debug, Clone, PartialEq)]
pub struct HeaderMap {
    entries: Vec<(Vec<u8>, Vec<u8>)>,
}

impl View for HeaderMap {
    type V = Seq<(Seq<u8>, Seq<u8>)>;

    closed spec fn view(&self) -> Seq<(Seq<u8>, Seq<u8>)> {
        self.entries@.map_values(|e: (Vec<u8>, Vec<u8>)| (e.0@, e.1@))
    }
}

impl HeaderMap {
    /// Every name is a stored (lower-cased) token, every value is in range,
    /// and no name repeats.
    pub open spec fn wf(&self) -> bool {
        entries_wf(self@)
    }

    /// An empty header map.
    pub fn new() -> (r: HeaderMap)
        ensures
            r@ == Seq::<(Seq<u8>, Seq<u8>)>::empty(),
            r.wf(),
    {
        let r = HeaderMap { entries: Vec::new() };
        assert(r@ =~= Seq::<(Seq<u8>, Seq<u8>)>::empty());
        r
    }

    /// Number of stored headers.
    pub fn len(&self) -> (r: usize)
        ensures
            r == self@.len(),
    {
        self.entries.len()
    }

    /// Index of the entry stored under the given key, if any.
    fn find(&self, key: &Vec<u8>) -> (r: Option<usize>)
        ensures
            match r {
                Some(i) => 0 <= i < self@.len() && find_key(self@, key@, 0) == Some(i as int),
                None => find_key(self@, key@, 0) is None,
            },
    {
        let n = self.entries.len();
        let mut i: usize = 0;
        while i < n
            invariant
                n == self@.len(),
                0 <= i <= n,
                find_key(self@, key@, 0) == find_key(self@, key@, i as int),
            decreases n - i,
        {
            if bytes_equal(&self.entries[i].0, key) {
                assert(find_key(self@, key@, i as int) == Some(i as int));
                return Some(i);
            }
            assert(find_key(self@, key@, i as int) == find_key(self@, key@, i + 1));
            i = i + 1;
        }
        None
    }

    /// Stores a header under an already lower-cased name, replacing an
    /// existing entry with that name.
    pub(crate) fn insert(&mut self, name: Vec<u8>, value: Vec<u8>)
        ensures
            final(self)@ == insert_entry(old(self)@, name@, value@),
    {
        let ghost entries0 = self@;
        let ghost name0 = name@;
        let ghost value0 = value@;
        let found = self.find(&name);
        match found {
            Some(j) => {
                self.entries.set(j, (name, value));
                assert(self@ =~~= entries0.update(j as int, (name0, value0)));
            },
            None => {
                self.entries.push((name, value));
                assert(self@ =~~= entries0.push((name0, value0)));
            },
        }
    }

    /// ASCII-case-insensitive lookup: the value stored under the given name,
    /// if any.
    pub fn get(&self, name: &str) -> (r: Option<String>)
        requires
            self.wf(),
        ensures
            match lookup(self@, lower_bytes(name.spec_bytes())) {
                Some(v) => r is Some && r.unwrap()@ == decode_utf8(v),
                None => r is None,
            },
    {
        let key = lower_ascii(name.as_bytes());
        match self.find(&key) {
            Some(i) => {
                let v = clone_bytes(&self.entries[i].1);
                proof {
                    assert(valid_header_name(self@[i as int].0));
                    assert(valid_header_value(self@[i as int].1));
                    lemma_ascii_decode(v@);
                }
                let s = vec_to_string(v);
                Some(s.unwrap())
            },
            None => None,
        }
    }

    /// The raw value bytes stored under an already lower-cased key.
    pub(crate) fn get_raw(&self, key: &Vec<u8>) -> (r: Option<Vec<u8>>)
        ensures
            match lookup(self@, key@) {
                Some(v) => r matches Some(c) && c@ == v,
                None => r is None,
            },
    {
        match self.find(key) {
            Some(i) => Some(clone_bytes(&self.entries[i].1)),
            None => None,
        }
    }
}

/// Compares two byte vectors for equality.
pub(crate) fn bytes_equal(a: &Vec<u8>, b: &Vec<u8>) -> (r: bool)
    ensures
        r == (a@ == b@),
{
    if a.len() != b.len() {
        assert(a@ != b@);
        return false;
    }
    let n = a.len();
    let mut i: usize = 0;
    while i < n
        invariant
            n == a@.len() == b@.len(),
            0 <= i <= n,
            forall|j: int| 0 <= j < i ==> a@[j] == b@[j],
        decreases n - i,
    {
        if a[i] != b[i] {
            return false;
        }
        i = i + 1;
    }
    assert(a@ =~= b@);
    true
}

/// Copies a byte vector.
pub(crate) fn clone_bytes(a: &Vec<u8>) -> (r: Vec<u8>)
    ensures
        r@ == a@,
{
    let n = a.len();
    let mut r: Vec<u8> = Vec::new();
    let mut i: usize = 0;
    while i < n
        invariant
            n == a@.len(),
            0 <= i <= n,
            r@ == a@.subrange(0, i as int),
        decreases n - i,
    {
        r.push(a[i]);
        assert(r@ =~= a@.subrange(0, i + 1 as int));
        i = i + 1;
    }
    assert(r@ =~= a@);
    r
}

/// ASCII lower-cases a byte slice into a fresh vector.
pub(crate) fn lower_ascii(a: &[u8]) -> (r: Vec<u8>)
    ensures
        r@ == lower_bytes(a@),
{
    let n = a.len();
    let mut r: Vec<u8> = Vec::new();
    let mut i: usize = 0;
    while i < n
        invariant
            n == a@.len(),
            0 <= i <= n,
            r@ == lower_bytes(a@.subrange(0, i as int)),
        decreases n - i,
    {
        let b = a[i];
        if 65 <= b && b <= 90 {
            r.push(b + 32);
        } else {
            r.push(b);
        }
        assert(r@ =~= lower_bytes(a@.subrange(0, i + 1 as int)));
        i = i + 1;
    }
    assert(a@.subrange(0, n as int) =~= a@);
    r
}

/// Mathematical view of an encapsulated-section set.
pub ghost enum EncView {
    NullBody,
    Options { body: Option<Seq<u8>> },
    RequestOnly { header: Option<Seq<u8>>, body: Option<Seq<u8>> },
    ResponseOnly { header: Option<Seq<u8>>, body: Option<Seq<u8>> },
    RequestResponse {
        req_header: Option<Seq<u8>>,
        req_body: Option<Seq<u8>>,
        res_header: Option<Seq<u8>>,
        res_body: Option<Seq<u8>>,
    },
}

/// View of an optional payload.
pub open spec fn opt_bytes_view(o: Option<bytes::Bytes>) -> Option<Seq<u8>> {
    match o {
        Some(b) => Some(bytes_view(b)),
        None => None,
    }
}

/// The encapsulated HTTP fragments carried by one ICAP message. Header
/// sections hold the raw copied bytes; body sections hold the
/// chunk-transfer-decoded payload.
#[derive(Debug, Clone, PartialEq)]
pub enum Encapsulated {
    NullBody,
    Options { body: Option<bytes::Bytes> },
    RequestOnly { header: Option<bytes::Bytes>, body: Option<bytes::Bytes> },
    ResponseOnly { header: Option<bytes::Bytes>, body: Option<bytes::Bytes> },
    RequestResponse {
        req_header: Option<bytes::Bytes>,
        req_body: Option<bytes::Bytes>,
        res_header: Option<bytes::Bytes>,
        res_body: Option<bytes::Bytes>,
    },
}

impl View for Encapsulated {
    type V = EncView;

    open spec fn view(&self) -> EncView {
        match *self {
            Encapsulated::NullBody => EncView::NullBody,
            Encapsulated::Options { body } => EncView::Options { body: opt_bytes_view(body) },
            Encapsulated::RequestOnly { header, body } => EncView::RequestOnly {
                header: opt_bytes_view(header),
                body: opt_bytes_view(body),
            },
            Encapsulated::ResponseOnly { header, body } => EncView::ResponseOnly {
                header: opt_bytes_view(header),
                body: opt_bytes_view(body),
            },
            Encapsulated::RequestResponse { req_header, req_body, res_header, res_body } => EncView::RequestResponse {
                req_header: opt_bytes_view(req_header),
                req_body: opt_bytes_view(req_body),
                res_header: opt_bytes_view(res_header),
                res_body: opt_bytes_view(res_body),
            },
        }
    }
}

/// Whether a section of the given kind is carried, on the view.
pub open spec fn enc_view_contains(e: EncView, section: SectionType) -> bool {
    match e {
        EncView::NullBody => section == SectionType::NullBody,
        EncView::Options { body } => section == SectionType::OptionsBody && body is Some,
        EncView::RequestOnly { header, body } => {
            ||| (section == SectionType::RequestHeader && header is Some)
            ||| (section == SectionType::RequestBody && body is Some)
        },
        EncView::ResponseOnly { header, body } => {
            ||| (section == SectionType::ResponseHeader && header is Some)
            ||| (section == SectionType::ResponseBody && body is Some)
        },
        EncView::RequestResponse { req_header, req_body, res_header, res_body } => {
            ||| (section == SectionType::RequestHeader && req_header is Some)
            ||| (section == SectionType::RequestBody && req_body is Some)
            ||| (section == SectionType::ResponseHeader && res_header is Some)
            ||| (section == SectionType::ResponseBody && res_body is Some)
        },
    }
}

impl Encapsulated {
    /// Whether a section of the given kind is carried.
    pub fn contains(&self, section: &SectionType) -> (r: bool)
        ensures
            r == enc_view_contains(self@, *section),
    {
        match self {
            Encapsulated::NullBody => *section == SectionType::NullBody,
            Encapsulated::Options { body } => *section == SectionType::OptionsBody
                && body.is_some(),
            Encapsulated::RequestOnly { header, body } => {
                (*section == SectionType::RequestHeader && header.is_some()) || (*section
                    == SectionType::RequestBody && body.is_some())
            },
            Encapsulated::ResponseOnly { header, body } => {
                (*section == SectionType::ResponseHeader && header.is_some()) || (*section
                    == SectionType::ResponseBody && body.is_some())
            },
            Encapsulated::RequestResponse { req_header, req_body, res_header, res_body } => {
                (*section == SectionType::RequestHeader && req_header.is_some()) || (*section
                    == SectionType::RequestBody && req_body.is_some()) || (*section
                    == SectionType::ResponseHeader && res_header.is_some()) || (*section
                    == SectionType::ResponseBody && res_body.is_some())
            },
        }
    }
}

/// Mathematical view of an assembled message.
pub ghost enum MessageView {
    Request {
        method: Method,
        uri: Seq<char>,
        version: Version,
        headers: Seq<(Seq<u8>, Seq<u8>)>,
        encapsulated: EncView,
    },
    Response {
        version: Version,
        status: u16,
        reason: Seq<char>,
        headers: Seq<(Seq<u8>, Seq<u8>)>,
        encapsulated: EncView,
    },
}

/// One fully parsed ICAP message, owned by the caller.
#[derive(Debug, Clone, PartialEq)]
pub enum IcapMessage {
    Request {
        method: Method,
        uri: String,
        version: Version,
        headers: HeaderMap,
        encapsulated: Encapsulated,
    },
    Response {
        version: Version,
        status: u16,
        reason: String,
        headers: HeaderMap,
        encapsulated: Encapsulated,
    },
}

impl View for IcapMessage {
    type V = MessageView;

    open spec fn view(&self) -> MessageView {
        match self {
            IcapMessage::Request { method, uri, version, headers, encapsulated } => MessageView::Request {
                method: *method,
                uri: uri@,
                version: *version,
                headers: headers@,
                encapsulated: encapsulated@,
            },
            IcapMessage::Response { version, status, reason, headers, encapsulated } => MessageView::Response {
                version: *version,
                status: *status,
                reason: reason@,
                headers: headers@,
                encapsulated: encapsulated@,
            },
        }
    }
}

impl IcapMessage {
    /// The header map of the message is well formed.
    pub open spec fn wf(&self) -> bool {
        match self {
            IcapMessage::Request { headers, .. } => headers.wf(),
            IcapMessage::Response { headers, .. } => headers.wf(),
        }
    }
}

} // verus!
