//! TLS client-hello fingerprinting: the JA4 input data and its text form.
//!
//! The fingerprint is computed from plain values read out of a client hello
//! — wire version numbers, cipher-suite and extension identifiers, the first
//! ALPN protocol and the signature-algorithm identifiers — so the whole
//! derivation is verified; extracting those values from a TLS stack's hello
//! structure is the caller's concern.

use vstd::prelude::*;
use crate::msg::clone_bytes;
use crate::text::{vec_to_string, lemma_ascii_decode};
use crate::laws::hex_digit_char;
use vstd::string::StringExecFns;

verus! {

/// Transport the hello arrived over.
#[derive(Debug, Clone, Copy, PartialEq, Eq, Structural)]
pub enum TransportProtocol {
    Tcp,
    Quic,
}

/// TLS version families the fingerprint distinguishes.
#[derive(Debug, Clone, Copy, PartialEq, Eq, Structural)]
pub enum TlsVersion {
    Tls1_0,
    Tls1_1,
    Tls1_2,
    Tls1_3,
}

/// A failure while computing the fingerprint input data.
#[derive(Debug, Clone, Copy, PartialEq, Eq, Structural)]
pub enum Ja4ComputeError {
    MissingClientHello,
    EmptyCipherSuites,
    InvalidTlsVersion,
}

impl Ja4ComputeError {
    /// A human-readable account of the failure.
    pub fn describe(&self) -> (r: &'static str)
        ensures
            r@ == match *self {
                Ja4ComputeError::MissingClientHello => "Ja4 Compute Error: missing client hello"@,
                Ja4ComputeError::EmptyCipherSuites => "Ja4 Compute Error: empty cipher suites"@,
                Ja4ComputeError::InvalidTlsVersion => "Ja4 Compute Error: invalid tls version"@,
            },
    {
        match *self {
            Ja4ComputeError::MissingClientHello => "Ja4 Compute Error: missing client hello",
            Ja4ComputeError::EmptyCipherSuites => "Ja4 Compute Error: empty cipher suites",
            Ja4ComputeError::InvalidTlsVersion => "Ja4 Compute Error: invalid tls version",
        }
    }
}

/// What the fingerprint reads from a TLS client hello, as plain values.
pub struct HelloSummary {
    /// The hello's own protocol version, as its wire value.
    pub protocol_version: u16,
    /// The negotiated protocol version, when the handshake settled one.
    pub negotiated_version: Option<u16>,
    /// Offered cipher-suite identifiers, in offer order.
    pub cipher_suites: Vec<u16>,
    /// Extension identifiers, in offer order.
    pub extension_ids: Vec<u16>,
    /// The first ALPN protocol offered, if any.
    pub alpn: Option<Vec<u8>>,
    /// Signature-algorithm identifiers, in offer order.
    pub signature_algorithms: Vec<u16>,
}

/// A GREASE identifier: both bytes equal, low nibble `0xa`.
pub open spec fn is_grease(v: u16) -> bool {
    v / 256 == v % 256 && v % 16 == 10
}

/// The version family of a wire version value, if it names one.
pub open spec fn tls_version_of(v: u16) -> Option<TlsVersion> {
    if v == 0x0002 || v == 0x0300 || v == 0x0301 || v == 0xfeff {
        Some(TlsVersion::Tls1_0)
    } else if v == 0x0302 {
        Some(TlsVersion::Tls1_1)
    } else if v == 0x0303 || v == 0xfefd {
        Some(TlsVersion::Tls1_2)
    } else if v == 0x0304 || v == 0xfefc {
        Some(TlsVersion::Tls1_3)
    } else {
        None
    }
}

/// Identifiers that are not GREASE.
pub open spec fn keep_id(v: u16) -> bool {
    !is_grease(v)
}

/// The non-GREASE identifiers, in order.
pub open spec fn filter_ids(s: Seq<u16>) -> Seq<u16>
    decreases s.len(),
{
    if s.len() == 0 {
        Seq::empty()
    } else {
        let rest = filter_ids(s.drop_last());
        if keep_id(s.last()) {
            rest.push(s.last())
        } else {
            rest
        }
    }
}

/// The identifiers other than SNI and ALPN, in order.
pub open spec fn filter_named_ids(s: Seq<u16>) -> Seq<u16>
    decreases s.len(),
{
    if s.len() == 0 {
        Seq::empty()
    } else {
        let rest = filter_named_ids(s.drop_last());
        if s.last() != 0 && s.last() != 16 {
            rest.push(s.last())
        } else {
            rest
        }
    }
}

/// Inserts an identifier behind every identifier not larger than it.
pub open spec fn insert_sorted_u16(x: u16, s: Seq<u16>) -> Seq<u16>
    decreases s.len(),
{
    if s.len() == 0 {
        seq![x]
    } else if x < s[0] {
        seq![x] + s
    } else {
        seq![s[0]] + insert_sorted_u16(x, s.skip(1))
    }
}

/// Stable ascending sort of identifiers. Sorting by value is the same as
/// sorting by the four-digit hexadecimal rendering, which preserves numeric
/// order.
pub open spec fn sort_u16(s: Seq<u16>) -> Seq<u16>
    decreases s.len(),
{
    if s.len() == 0 {
        Seq::empty()
    } else {
        insert_sorted_u16(s.last(), sort_u16(s.drop_last()))
    }
}

proof fn lemma_insert_sorted_u16_at(x: u16, s: Seq<u16>, k: int)
    requires
        0 <= k <= s.len(),
        forall|m: int| 0 <= m < k ==> s[m] <= x,
        k < s.len() ==> x < s[k],
    ensures
        insert_sorted_u16(x, s) == s.take(k) + seq![x] + s.skip(k),
    decreases s.len(),
{
    if s.len() == 0 {
        assert(insert_sorted_u16(x, s) =~= s.take(k) + seq![x] + s.skip(k));
    } else if x < s[0] {
        assert(k == 0);
        assert(insert_sorted_u16(x, s) =~= s.take(k) + seq![x] + s.skip(k));
    } else {
        assert(k >= 1);
        assert(forall|m: int| 0 <= m < k - 1 ==> s.skip(1)[m] <= x) by {
            assert(forall|m: int| 0 <= m < k - 1 ==> s.skip(1)[m] == s[m + 1]);
        }
        lemma_insert_sorted_u16_at(x, s.skip(1), k - 1);
        assert(insert_sorted_u16(x, s) =~= s.take(k) + seq![x] + s.skip(k));
    }
}

/// The mathematical content of a computed fingerprint input.
pub ghost struct Ja4View {
    pub protocol: TransportProtocol,
    pub version: TlsVersion,
    pub has_sni: bool,
    pub alpn: Option<Seq<u8>>,
    pub cipher_suites: Seq<u16>,
    pub extensions: Option<Seq<u16>>,
    pub signature_algorithms: Option<Seq<u16>>,
}

/// Input data for a JA4 fingerprint.
#[derive(Debug, Clone)]
pub struct Ja4 {
    protocol: TransportProtocol,
    version: TlsVersion,
    has_sni: bool,
    alpn: Option<Vec<u8>>,
    cipher_suites: Vec<u16>,
    extensions: Option<Vec<u16>>,
    signature_algorithms: Option<Vec<u16>>,
}

impl View for Ja4 {
    type V = Ja4View;

    closed spec fn view(&self) -> Ja4View {
        Ja4View {
            protocol: self.protocol,
            version: self.version,
            has_sni: self.has_sni,
            alpn: match self.alpn {
                Some(a) => Some(a@),
                None => None,
            },
            cipher_suites: self.cipher_suites@,
            extensions: match self.extensions {
                Some(e) => Some(e@),
                None => None,
            },
            signature_algorithms: match self.signature_algorithms {
                Some(g) => Some(g@),
                None => None,
            },
        }
    }
}

/// A usable ALPN value: non-empty printable ASCII. Anything else contributes
/// the `00` placeholder to the fingerprint.
pub open spec fn usable_alpn(a: Seq<u8>) -> bool {
    a.len() > 0 && forall|i: int| 0 <= i < a.len() ==> 32 <= #[trigger] a[i] <= 126
}

/// What `Ja4::compute` stores for the given summary once the version is
/// accepted and the cipher suites survive GREASE filtering.
pub open spec fn computed_view(h_ext: Seq<u16>, h_alpn: Option<Seq<u8>>, h_sigs: Seq<u16>, version: TlsVersion, ciphers: Seq<u16>) -> Ja4View {
    let exts = filter_ids(h_ext);
    let sigs = filter_ids(h_sigs);
    Ja4View {
        protocol: if h_ext.contains(57) {
            TransportProtocol::Quic
        } else {
            TransportProtocol::Tcp
        },
        version,
        has_sni: h_ext.contains(0),
        alpn: match h_alpn {
            Some(a) => if usable_alpn(a) {
                Some(a)
            } else {
                None
            },
            None => None,
        },
        cipher_suites: sort_u16(ciphers),
        extensions: if exts.len() == 0 {
            None
        } else {
            Some(sort_u16(exts))
        },
        signature_algorithms: if sigs.len() == 0 {
            None
        } else {
            Some(sigs)
        },
    }
}

/// The ALPN bytes of the view are printable ASCII.
pub open spec fn ja4_wf(v: Ja4View) -> bool {
    match v.alpn {
        Some(a) => usable_alpn(a),
        None => true,
    }
}


/// The SHA-256 digest of a byte sequence: a function of its input alone.
pub uninterp spec fn sha256_of(data: Seq<u8>) -> Seq<u8>;

/// Relies on `sha2::Sha256` through `Digest::digest`: the SHA-256 digest of
/// the input, thirty-two bytes, depending on the input bytes alone.
#[verifier::external_body]
fn sha256(data: &Vec<u8>) -> (r: Vec<u8>)
    ensures
        r@ == sha256_of(data@),
        r@.len() == 32,
{
    <sha2::Sha256 as sha2::Digest>::digest(data.as_slice()).to_vec()
}

/// Two lower-case hexadecimal digits per byte, in order.
pub open spec fn hex_chars_of(b: Seq<u8>) -> Seq<char>
    decreases b.len(),
{
    if b.len() == 0 {
        Seq::empty()
    } else {
        hex_chars_of(b.drop_last()) + seq![
            hex_digit_char(b.last() as int / 16) as char,
            hex_digit_char(b.last() as int % 16) as char,
        ]
    }
}

/// Relies on `hex::encode`: renders each byte as two lower-case hexadecimal
/// digits, in order.
#[verifier::external_body]
fn hex_lower(b: &Vec<u8>) -> (r: String)
    ensures
        r@ == hex_chars_of(b@),
{
    hex::encode(b)
}

/// The twelve-character truncated digest used by the hashed fingerprint:
/// all zeros for empty input, else the first six digest bytes in
/// hexadecimal.
pub open spec fn hash12_text(s: Seq<u8>) -> Seq<char> {
    if s.len() == 0 {
        seq!['0', '0', '0', '0', '0', '0', '0', '0', '0', '0', '0', '0']
    } else {
        hex_chars_of(sha256_of(s).take(6))
    }
}

/// The truncated digest of the given text, or the zero placeholder for
/// empty text.
fn hash12(s: &Vec<u8>) -> (r: String)
    ensures
        r@ == hash12_text(s@),
{
    if s.len() == 0 {
        let r = "000000000000".to_owned();
        proof {
            reveal_strlit("000000000000");
            assert(r@ =~= hash12_text(s@));
        }
        r
    } else {
        let mut d = sha256(s);
        d.truncate(6);
        proof {
            assert(d@ =~= sha256_of(s@).take(6));
        }
        hex_lower(&d)
    }
}

/// The hashed fingerprint text: the leading segment, then the truncated
/// digest of the sorted cipher suites, then the truncated digest of the
/// remaining extensions and the signature algorithms.
pub open spec fn fp_hashed_text(v: Ja4View) -> Seq<char> {
    let ciphers = join_hex4(v.cipher_suites);
    let tail = join_hex4(
        match v.extensions {
            Some(e) => filter_named_ids(e),
            None => Seq::empty(),
        },
    ) + fp_sigs(v);
    fp_head(v).map_values(|b: u8| b as char) + seq!['_'] + hash12_text(ciphers) + seq!['_']
        + hash12_text(tail)
}

impl Ja4 {
    /// The stored data, with the given restrictions, is well formed.
    pub open spec fn wf(&self) -> bool {
        ja4_wf(self@)
    }

    /// Computes the fingerprint input from a hello summary: the negotiated
    /// version wins over the hello's own, GREASE identifiers are dropped
    /// everywhere, cipher suites and extensions are sorted, signature
    /// algorithms keep their order, and QUIC transport and SNI presence are
    /// read off the extension list.
    pub fn compute(hello: &HelloSummary) -> (r: Result<Ja4, Ja4ComputeError>)
        ensures
            ({
                let eff = match hello.negotiated_version {
                    Some(v) => v,
                    None => hello.protocol_version,
                };
                match tls_version_of(eff) {
                    None => r matches Err(e) && e == Ja4ComputeError::InvalidTlsVersion,
                    Some(version) => {
                        let ciphers = filter_ids(hello.cipher_suites@);
                        if ciphers.len() == 0 {
                            r matches Err(e) && e == Ja4ComputeError::EmptyCipherSuites
                        } else {
                            r matches Ok(j) && j@ == computed_view(
                                hello.extension_ids@,
                                match hello.alpn {
                                    Some(a) => Some(a@),
                                    None => None,
                                },
                                hello.signature_algorithms@,
                                version,
                                ciphers,
                            ) && j.wf()
                        }
                    },
                }
            }),
    {
        let eff = match hello.negotiated_version {
            Some(v) => v,
            None => hello.protocol_version,
        };
        let version = if eff == 0x0002 || eff == 0x0300 || eff == 0x0301 || eff == 0xfeff {
            TlsVersion::Tls1_0
        } else if eff == 0x0302 {
            TlsVersion::Tls1_1
        } else if eff == 0x0303 || eff == 0xfefd {
            TlsVersion::Tls1_2
        } else if eff == 0x0304 || eff == 0xfefc {
            TlsVersion::Tls1_3
        } else {
            return Err(Ja4ComputeError::InvalidTlsVersion);
        };
        let ciphers = filter_grease(&hello.cipher_suites);
        if ciphers.len() == 0 {
            return Err(Ja4ComputeError::EmptyCipherSuites);
        }
        let cipher_suites = sort_ids(ciphers);
        let protocol = if contains_id(&hello.extension_ids, 57) {
            TransportProtocol::Quic
        } else {
            TransportProtocol::Tcp
        };
        let has_sni = contains_id(&hello.extension_ids, 0);
        let exts = filter_grease(&hello.extension_ids);
        let extensions = if exts.len() == 0 {
            None
        } else {
            Some(sort_ids(exts))
        };
        let sigs = filter_grease(&hello.signature_algorithms);
        let signature_algorithms = if sigs.len() == 0 {
            None
        } else {
            Some(sigs)
        };
        let alpn = match &hello.alpn {
            Some(a) => {
                if a.len() > 0 && all_printable(a) {
                    Some(clone_bytes(a))
                } else {
                    None
                }
            },
            None => None,
        };
        Ok(Ja4 { protocol, version, has_sni, alpn, cipher_suites, extensions, signature_algorithms })
    }
}

/// Drops GREASE identifiers, keeping the order.
fn filter_grease(ids: &Vec<u16>) -> (r: Vec<u16>)
    ensures
        r@ == filter_ids(ids@),
{
    let n = ids.len();
    let mut out: Vec<u16> = Vec::new();
    let mut i: usize = 0;
    proof {
        assert(filter_ids(ids@.take(0)) =~= Seq::<u16>::empty());
    }
    while i < n
        invariant
            0 <= i <= n == ids@.len(),
            out@ == filter_ids(ids@.take(i as int)),
        decreases n - i,
    {
        let v = ids[i];
        proof {
            assert(ids@.take(i + 1).drop_last() =~= ids@.take(i as int));
            assert(ids@.take(i + 1).last() == v);
        }
        if !(v / 256 == v % 256 && v % 16 == 10) {
            out.push(v);
        }
        i = i + 1;
    }
    assert(ids@.take(n as int) =~= ids@);
    out
}

/// Whether the identifier occurs in the list.
fn contains_id(ids: &Vec<u16>, x: u16) -> (r: bool)
    ensures
        r == ids@.contains(x),
{
    let n = ids.len();
    let mut i: usize = 0;
    while i < n
        invariant
            0 <= i <= n == ids@.len(),
            forall|k: int| 0 <= k < i ==> ids@[k] != x,
        decreases n - i,
    {
        if ids[i] == x {
            assert(ids@[i as int] == x);
            return true;
        }
        i = i + 1;
    }
    assert(!ids@.contains(x));
    false
}

/// Whether every byte is printable ASCII.
fn all_printable(a: &Vec<u8>) -> (r: bool)
    ensures
        r == (forall|i: int| 0 <= i < a@.len() ==> 32 <= #[trigger] a@[i] <= 126),
{
    let n = a.len();
    let mut i: usize = 0;
    while i < n
        invariant
            0 <= i <= n == a@.len(),
            forall|k: int| 0 <= k < i ==> 32 <= #[trigger] a@[k] <= 126,
        decreases n - i,
    {
        let b = a[i];
        if b < 32 || b > 126 {
            return false;
        }
        i = i + 1;
    }
    true
}

/// First index whose identifier exceeds `x`, or the length.
fn id_insert_pos(out: &Vec<u16>, x: u16) -> (k: usize)
    ensures
        0 <= k <= out@.len(),
        forall|m: int| 0 <= m < k ==> out@[m] <= x,
        (k as int) < out@.len() ==> x < out@[k as int],
{
    let n = out.len();
    let mut k: usize = 0;
    while k < n
        invariant
            0 <= k <= n == out@.len(),
            forall|m: int| 0 <= m < k ==> out@[m] <= x,
        decreases n - k,
    {
        if x < out[k] {
            return k;
        }
        k = k + 1;
    }
    k
}

/// Stable insertion sort of identifiers, ascending.
fn sort_ids(ids: Vec<u16>) -> (r: Vec<u16>)
    ensures
        r@ == sort_u16(ids@),
{
    let n = ids.len();
    let mut out: Vec<u16> = Vec::new();
    let mut i: usize = 0;
    proof {
        assert(sort_u16(ids@.take(0)) =~= Seq::<u16>::empty());
    }
    while i < n
        invariant
            0 <= i <= n == ids@.len(),
            out@ == sort_u16(ids@.take(i as int)),
        decreases n - i,
    {
        let x = ids[i];
        proof {
            assert(ids@.take(i + 1).drop_last() =~= ids@.take(i as int));
            assert(ids@.take(i + 1).last() == x);
        }
        let k = id_insert_pos(&out, x);
        let ghost before = out@;
        proof {
            lemma_insert_sorted_u16_at(x, before, k as int);
        }
        out.insert(k, x);
        assert(out@ =~= before.take(k as int) + seq![x] + before.skip(k as int));
        i = i + 1;
    }
    assert(ids@.take(n as int) =~= ids@);
    out
}

/// The four-digit lower-case hexadecimal rendering of an identifier.
pub open spec fn hex4(v: u16) -> Seq<u8> {
    seq![
        hex_digit_char(v as int / 4096),
        hex_digit_char((v as int / 256) % 16),
        hex_digit_char((v as int / 16) % 16),
        hex_digit_char(v as int % 16),
    ]
}

/// The identifiers rendered in hexadecimal, joined with commas.
pub open spec fn join_hex4(l: Seq<u16>) -> Seq<u8>
    decreases l.len(),
{
    if l.len() == 0 {
        Seq::empty()
    } else if l.len() == 1 {
        hex4(l[0])
    } else {
        join_hex4(l.drop_last()) + seq![44u8] + hex4(l.last())
    }
}

/// Two decimal digits for a count capped at ninety-nine.
pub open spec fn two_digits(n: int) -> Seq<u8> {
    let m = if n > 99 {
        99int
    } else {
        n
    };
    seq![(48 + m / 10) as u8, (48 + m % 10) as u8]
}

/// The full human-readable fingerprint text, as bytes: the transport, the
/// version, the SNI marker, the capped cipher and extension counts and the
/// first and last ALPN characters; then the sorted cipher suites; then the
/// extensions without SNI and ALPN, and the signature algorithms when any.
pub open spec fn proto_byte(v: Ja4View) -> u8 {
    if v.protocol == TransportProtocol::Quic {
        113u8
    } else {
        116u8
    }
}

pub open spec fn vers_bytes(ver: TlsVersion) -> Seq<u8> {
    match ver {
        TlsVersion::Tls1_0 => seq![49u8, 48],
        TlsVersion::Tls1_1 => seq![49u8, 49],
        TlsVersion::Tls1_2 => seq![49u8, 50],
        TlsVersion::Tls1_3 => seq![49u8, 51],
    }
}

pub open spec fn sni_byte(v: Ja4View) -> u8 {
    if v.has_sni {
        100u8
    } else {
        105u8
    }
}

pub open spec fn ext_count(v: Ja4View) -> int {
    match v.extensions {
        Some(e) => e.len() as int,
        None => 0,
    }
}

pub open spec fn alpn_first(v: Ja4View) -> u8 {
    match v.alpn {
        Some(a) => if a.len() >= 1 {
            a[0]
        } else {
            48u8
        },
        None => 48u8,
    }
}

pub open spec fn alpn_last(v: Ja4View) -> u8 {
    match v.alpn {
        Some(a) => if a.len() >= 2 {
            a[a.len() - 1]
        } else {
            48u8
        },
        None => 48u8,
    }
}

pub open spec fn fp_head(v: Ja4View) -> Seq<u8> {
    seq![proto_byte(v)] + vers_bytes(v.version) + seq![sni_byte(v)] + two_digits(
        v.cipher_suites.len() as int,
    ) + two_digits(ext_count(v)) + seq![alpn_first(v), alpn_last(v)]
}

/// The trailing signature-algorithm part, with its separating underscore
/// when it is present at all.
pub open spec fn fp_sigs(v: Ja4View) -> Seq<u8> {
    let sigs = match v.signature_algorithms {
        Some(g) => join_hex4(g),
        None => Seq::empty(),
    };
    if sigs.len() == 0 {
        sigs
    } else {
        seq![95u8] + sigs
    }
}

pub open spec fn fp_bytes(v: Ja4View) -> Seq<u8> {
    let ciphers = join_hex4(v.cipher_suites);
    let exts = join_hex4(
        match v.extensions {
            Some(e) => filter_named_ids(e),
            None => Seq::empty(),
        },
    );
    fp_head(v) + seq![95u8] + ciphers + seq![95u8] + exts + fp_sigs(v)
}

/// The fingerprint text as characters.
pub open spec fn fp_text(v: Ja4View) -> Seq<char> {
    fp_bytes(v).map_values(|b: u8| b as char)
}

/// Every byte of one hexadecimal rendering is ASCII.
proof fn lemma_hex4_ascii(v: u16)
    ensures
        forall|i: int| 0 <= i < hex4(v).len() ==> (#[trigger] hex4(v)[i]) < 0x80,
{
    assert(hex4(v)[0] == hex_digit_char(v as int / 4096));
    assert(hex4(v)[1] == hex_digit_char((v as int / 256) % 16));
    assert(hex4(v)[2] == hex_digit_char((v as int / 16) % 16));
    assert(hex4(v)[3] == hex_digit_char(v as int % 16));
}

/// Every byte of a joined hexadecimal rendering is ASCII.
proof fn lemma_join_hex4_ascii(l: Seq<u16>)
    ensures
        forall|i: int| 0 <= i < join_hex4(l).len() ==> (#[trigger] join_hex4(l)[i]) < 0x80,
    decreases l.len(),
{
    if l.len() == 0 {
    } else if l.len() == 1 {
        lemma_hex4_ascii(l[0]);
        assert(join_hex4(l) == hex4(l[0]));
    } else {
        lemma_join_hex4_ascii(l.drop_last());
        lemma_hex4_ascii(l.last());
        let a = join_hex4(l.drop_last());
        let r = a + seq![44u8] + hex4(l.last());
        assert forall|i: int| 0 <= i < r.len() implies r[i] < 0x80 by {
            if i < a.len() {
                assert(r[i] == a[i]);
            } else if i == a.len() {
                assert(r[i] == 44);
            } else {
                assert(r[i] == hex4(l.last())[i - a.len() - 1]);
            }
        }
    }
}

impl Ja4 {
    /// Renders the fingerprint in its full human-readable form, with the
    /// cipher suites, extensions and signature algorithms written out rather
    /// than hashed.
    /// Appends the transport, version and SNI marker bytes.
    fn push_proto_vers_sni(&self, out: &mut Vec<u8>)
        ensures
            final(out)@ == old(out)@ + seq![proto_byte(self@)] + vers_bytes(self@.version)
                + seq![sni_byte(self@)],
    {
        let ghost v = self@;
        let ghost start = out@;
        match self.protocol {
            TransportProtocol::Quic => out.push(113),
            TransportProtocol::Tcp => out.push(116),
        }
        assert(out@ =~= start + seq![proto_byte(v)]);
        let ghost p1 = out@;
        match self.version {
            TlsVersion::Tls1_0 => {
                out.push(49);
                out.push(48);
            },
            TlsVersion::Tls1_1 => {
                out.push(49);
                out.push(49);
            },
            TlsVersion::Tls1_2 => {
                out.push(49);
                out.push(50);
            },
            TlsVersion::Tls1_3 => {
                out.push(49);
                out.push(51);
            },
        }
        assert(out@ =~= p1 + vers_bytes(v.version));
        let ghost p2 = out@;
        if self.has_sni {
            out.push(100);
        } else {
            out.push(105);
        }
        assert(out@ =~= p2 + seq![sni_byte(v)]);
        assert(out@ =~= start + seq![proto_byte(v)] + vers_bytes(v.version) + seq![sni_byte(v)]);
    }

    /// Appends the first and last ALPN characters, or their placeholders.
    fn push_alpn_chars(&self, out: &mut Vec<u8>)
        ensures
            final(out)@ == old(out)@ + seq![alpn_first(self@), alpn_last(self@)],
    {
        let ghost v = self@;
        let ghost start = out@;
        match &self.alpn {
            Some(a) => {
                if a.len() >= 1 {
                    out.push(a[0]);
                } else {
                    out.push(48);
                }
                if a.len() >= 2 {
                    out.push(a[a.len() - 1]);
                } else {
                    out.push(48);
                }
            },
            None => {
                out.push(48);
                out.push(48);
            },
        }
        assert(out@ =~= start + seq![alpn_first(v), alpn_last(v)]);
    }

    /// Appends the leading fingerprint segment.
    fn push_head(&self, out: &mut Vec<u8>)
        ensures
            final(out)@ == old(out)@ + fp_head(self@),
    {
        let ghost v = self@;
        let ghost start = out@;
        self.push_proto_vers_sni(out);
        push_two_digits(out, self.cipher_suites.len());
        assert(self@.cipher_suites.len() == self.cipher_suites@.len());
        match &self.extensions {
            Some(e) => {
                assert(ext_count(v) == e@.len() as int);
                push_two_digits(out, e.len());
            },
            None => {
                assert(ext_count(v) == 0);
                push_two_digits(out, 0);
            },
        }
        self.push_alpn_chars(out);
        assert(out@ =~= start + fp_head(v));
    }

    #[verifier::rlimit(60)]
    pub fn to_human_string(&self) -> (r: String)
        requires
            self.wf(),
        ensures
            r@ == fp_text(self@),
    {
        let mut out: Vec<u8> = Vec::new();
        self.push_head(&mut out);
        let ghost head = out@;
        out.push(95);
        push_join_hex4(&mut out, &self.cipher_suites);
        assert(out@ =~= head + seq![95u8] + join_hex4(self@.cipher_suites));
        let ghost mid = out@;
        out.push(95);
        let c_exts: Vec<u16> = match &self.extensions {
            Some(e) => filter_named(e),
            None => Vec::new(),
        };
        proof {
            match self@.extensions {
                Some(ev) => {},
                None => {
                    assert(c_exts@ =~= filter_named_ids(Seq::<u16>::empty()));
                },
            }
        }
        push_join_hex4(&mut out, &c_exts);
        let ghost exts_done = out@;
        proof {
            assert(exts_done =~= mid + seq![95u8] + join_hex4(
                match self@.extensions {
                    Some(e) => filter_named_ids(e),
                    None => Seq::empty(),
                },
            ));
        }
        match &self.signature_algorithms {
            Some(g) => {
                if g.len() > 0 {
                    out.push(95);
                    push_join_hex4(&mut out, g);
                    assert(out@ =~= exts_done + fp_sigs(self@));
                } else {
                    proof {
                        assert(join_hex4(g@).len() == 0);
                        assert(out@ =~= exts_done + fp_sigs(self@));
                    }
                }
            },
            None => {
                proof {
                    assert(out@ =~= exts_done + fp_sigs(self@));
                }
            },
        }
        proof {
            assert(out@ =~= fp_bytes(self@));
            assert forall|i: int| 0 <= i < out@.len() implies out@[i] < 0x80 by {
                lemma_fp_bytes_ascii(self@);
            }
            lemma_ascii_decode(out@);
        }
        let s = vec_to_string(out);
        let r = s.unwrap();
        proof {
            assert(r@ =~= fp_text(self@));
        }
        r
    }
}

impl Ja4 {
    /// Renders the fingerprint in its hashed form: the leading segment in
    /// the clear, the cipher suites and the extension-and-signature part
    /// each replaced by their truncated digest.
    pub fn hash_string(&self) -> (r: String)
        requires
            self.wf(),
        ensures
            r@ == fp_hashed_text(self@),
    {
        let mut head: Vec<u8> = Vec::new();
        self.push_head(&mut head);
        proof {
            lemma_fp_head_ascii(self@);
            lemma_ascii_decode(head@);
        }
        let hs = vec_to_string(head);
        let mut s = hs.unwrap();
        proof {
            assert(s@ =~= fp_head(self@).map_values(|b: u8| b as char));
        }
        let mut ciphers: Vec<u8> = Vec::new();
        push_join_hex4(&mut ciphers, &self.cipher_suites);
        let h1 = hash12(&ciphers);
        let mut tail: Vec<u8> = Vec::new();
        let c_exts: Vec<u16> = match &self.extensions {
            Some(e) => filter_named(e),
            None => Vec::new(),
        };
        proof {
            match self@.extensions {
                Some(ev) => {},
                None => {
                    assert(c_exts@ =~= filter_named_ids(Seq::<u16>::empty()));
                },
            }
        }
        push_join_hex4(&mut tail, &c_exts);
        let ghost exts_part = tail@;
        match &self.signature_algorithms {
            Some(g) => {
                if g.len() > 0 {
                    tail.push(95);
                    push_join_hex4(&mut tail, g);
                    assert(tail@ =~= exts_part + fp_sigs(self@));
                } else {
                    proof {
                        assert(join_hex4(g@).len() == 0);
                        assert(tail@ =~= exts_part + fp_sigs(self@));
                    }
                }
            },
            None => {
                proof {
                    assert(tail@ =~= exts_part + fp_sigs(self@));
                }
            },
        }
        let h2 = hash12(&tail);
        s.append("_");
        s.append(h1.as_str());
        s.append("_");
        s.append(h2.as_str());
        proof {
            reveal_strlit("_");
            assert("_"@ =~= seq!['_']);
            assert(s@ =~= fp_hashed_text(self@));
        }
        s
    }
}

/// Every byte of the leading fingerprint segment is ASCII.
proof fn lemma_fp_head_ascii(v: Ja4View)
    requires
        ja4_wf(v),
    ensures
        forall|i: int| 0 <= i < fp_head(v).len() ==> (#[trigger] fp_head(v)[i]) < 0x80,
{
}

/// Every byte of the fingerprint text is ASCII.
#[verifier::rlimit(30)]
proof fn lemma_fp_bytes_ascii(v: Ja4View)
    requires
        ja4_wf(v),
    ensures
        forall|i: int| 0 <= i < fp_bytes(v).len() ==> (#[trigger] fp_bytes(v)[i]) < 0x80,
{
    lemma_join_hex4_ascii(v.cipher_suites);
    match v.extensions {
        Some(e) => lemma_join_hex4_ascii(filter_named_ids(e)),
        None => lemma_join_hex4_ascii(Seq::empty()),
    }
    match v.signature_algorithms {
        Some(g) => lemma_join_hex4_ascii(g),
        None => lemma_join_hex4_ascii(Seq::empty()),
    }
}

/// Appends the capped two-digit decimal count.
fn push_two_digits(out: &mut Vec<u8>, n: usize)
    ensures
        final(out)@ == old(out)@ + two_digits(n as int),
{
    let m = if n > 99 {
        99
    } else {
        n
    };
    let ghost before = out@;
    out.push(48 + (m / 10) as u8);
    out.push(48 + (m % 10) as u8);
    assert(out@ =~= before + two_digits(n as int));
}

/// Appends one identifier as four hexadecimal digits.
fn push_hex4(out: &mut Vec<u8>, v: u16)
    ensures
        final(out)@ == old(out)@ + hex4(v),
{
    let ghost before = out@;
    out.push(hex_digit((v / 4096) as u8));
    out.push(hex_digit(((v / 256) % 16) as u8));
    out.push(hex_digit(((v / 16) % 16) as u8));
    out.push(hex_digit((v % 16) as u8));
    assert(out@ =~= before + hex4(v));
}

/// One lower-case hexadecimal digit.
fn hex_digit(d: u8) -> (r: u8)
    requires
        d < 16,
    ensures
        r == hex_digit_char(d as int),
{
    if d < 10 {
        48 + d
    } else {
        87 + d
    }
}

/// Appends the identifiers joined with commas.
fn push_join_hex4(out: &mut Vec<u8>, ids: &Vec<u16>)
    ensures
        final(out)@ == old(out)@ + join_hex4(ids@),
{
    let ghost start = out@;
    let n = ids.len();
    let mut i: usize = 0;
    proof {
        assert(start + join_hex4(ids@.take(0)) =~= start);
    }
    while i < n
        invariant
            0 <= i <= n == ids@.len(),
            out@ == start + join_hex4(ids@.take(i as int)),
        decreases n - i,
    {
        proof {
            assert(ids@.take(i + 1).drop_last() =~= ids@.take(i as int));
            assert(ids@.take(i + 1).last() == ids@[i as int]);
        }
        if i > 0 {
            out.push(44);
        }
        push_hex4(out, ids[i]);
        proof {
            if i == 0 {
                assert(join_hex4(ids@.take(1)) == hex4(ids@[0]));
                assert(out@ =~= start + join_hex4(ids@.take(1)));
            } else {
                assert(out@ =~= start + join_hex4(ids@.take(i + 1)));
            }
        }
        i = i + 1;
    }
    assert(ids@.take(n as int) =~= ids@);
}

/// Drops the SNI and ALPN identifiers, keeping the order.
fn filter_named(ids: &Vec<u16>) -> (r: Vec<u16>)
    ensures
        r@ == filter_named_ids(ids@),
{
    let n = ids.len();
    let mut out: Vec<u16> = Vec::new();
    let mut i: usize = 0;
    proof {
        assert(filter_named_ids(ids@.take(0)) =~= Seq::<u16>::empty());
    }
    while i < n
        invariant
            0 <= i <= n == ids@.len(),
            out@ == filter_named_ids(ids@.take(i as int)),
        decreases n - i,
    {
        let v = ids[i];
        proof {
            assert(ids@.take(i + 1).drop_last() =~= ids@.take(i as int));
            assert(ids@.take(i + 1).last() == v);
        }
        if v != 0 && v != 16 {
            out.push(v);
        }
        i = i + 1;
    }
    assert(ids@.take(n as int) =~= ids@);
    out
}

} // verus!
