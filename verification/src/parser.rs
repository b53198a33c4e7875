//! The executable parsers: a byte cursor and the resumable message parser.
//!
//! The message parser owns a growing receive buffer. On every call it
//! re-examines the accumulated bytes from the start, which makes its result a
//! pure function of the concatenation of everything fed in so far — the
//! contracts say exactly that, in terms of [`crate::model::parse_outcome`].

use vstd::prelude::*;
use vstd::slice::slice_to_vec;
use crate::msg::bytes_equal;
use crate::text::vec_to_string;
use crate::bytebuf::{
    buf_view, buf_with_capacity, buf_extend, buf_advance, buf_as_slice, bytes_of_vec,
};
use crate::msg::{
    Method, Version, State, SectionType, Error, HeaderMap, Encapsulated, IcapMessage, lower_bytes,
    is_token_byte, is_value_byte, valid_header_name, valid_header_value, lower_ascii, clone_bytes,
    MAX_HEADERS, MAX_HEADER_NAME_LEN, MAX_HEADER_VALUE_LEN, MAX_LINE_LEN,
};
use crate::model::{
    find_byte_in, find_crlf, skip_ws, rskip_ws, trim_range, is_ws, is_digit, all_digits, dec_val,
    is_hex_digit, hex_digit_val, all_hex, hex_val, LineStep, next_line, token_reqmod,
    token_respmod, token_options, token_icap_1_0, token_icap_1_1, icap_prefix, starts_with,
    StartInfo, parse_start_line, is_token_seq, header_entry, HeadersStep, parse_headers_from,
    enc_header_key, token_null_body, token_req_hdr, token_req_body, token_res_hdr, token_res_body,
    token_opt_body, section_kind_of, parse_enc_item, parse_enc_items, insert_sorted,
    sort_by_offset, offsets_sorted, lemma_insert_sorted, lemma_dec_val_nonneg,
    lemma_hex_val_nonneg, ChunkStep,
    decode_chunked, sec_find, sec_insert, has_section, opt_section, BodyStep, extract_sections,
    assemble_enc, Outcome, parse_step, parse_outcome, spec_state,
};

verus! {

/// A position-tracked view over a byte slice.
pub struct ByteParser<'a> {
    bytes: &'a [u8],
    pos: usize,
}

impl<'a> ByteParser<'a> {
    /// The underlying bytes.
    pub closed spec fn spec_bytes(&self) -> Seq<u8> {
        self.bytes@
    }

    /// The cursor position.
    pub closed spec fn spec_pos(&self) -> int {
        self.pos as int
    }

    /// A cursor over the given bytes, at the start.
    pub fn new(bytes: &'a [u8]) -> (r: Self)
        ensures
            r.spec_bytes() == bytes@,
            r.spec_pos() == 0,
    {
        ByteParser { bytes, pos: 0 }
    }

    /// The byte under the cursor, if any.
    #[inline]
    pub fn peek(&self) -> (r: Option<u8>)
        ensures
            r == if self.spec_pos() < self.spec_bytes().len() {
                Some(self.spec_bytes()[self.spec_pos()])
            } else {
                None::<u8>
            },
    {
        if self.pos < self.bytes.len() {
            Some(self.bytes[self.pos])
        } else {
            None
        }
    }

    /// Moves the cursor one byte forward.
    #[inline]
    pub fn advance(&mut self)
        requires
            old(self).spec_pos() < old(self).spec_bytes().len(),
        ensures
            final(self).spec_bytes() == old(self).spec_bytes(),
            final(self).spec_pos() == old(self).spec_pos() + 1,
    {
        let n = self.bytes.len();
        assert(self.pos < n);
        self.pos = self.pos + 1;
    }

    /// The bytes already passed.
    #[inline]
    pub fn slice(&self) -> (r: &'a [u8])
        requires
            self.spec_pos() <= self.spec_bytes().len(),
        ensures
            r@ == self.spec_bytes().subrange(0, self.spec_pos()),
    {
        &self.bytes[0..self.pos]
    }

    /// The bytes not yet passed.
    #[inline]
    pub fn remaining(&self) -> (r: &'a [u8])
        requires
            self.spec_pos() <= self.spec_bytes().len(),
        ensures
            r@ == self.spec_bytes().skip(self.spec_pos()),
    {
        let r = &self.bytes[self.pos..self.bytes.len()];
        assert(r@ =~= self.spec_bytes().skip(self.spec_pos()));
        r
    }

    /// The cursor position.
    #[inline]
    pub fn position(&self) -> (r: usize)
        ensures
            r == self.spec_pos(),
    {
        self.pos
    }
}

/// Scans for `target` in `s[from..end)`.
fn sl_find_byte(s: &[u8], target: u8, from: usize, end: usize) -> (r: Option<usize>)
    requires
        from <= end <= s@.len(),
    ensures
        match r {
            Some(u) => find_byte_in(s@, target, from as int, end as int) == Some(u as int) && from
                <= u < end,
            None => find_byte_in(s@, target, from as int, end as int) is None,
        },
{
    let mut i = from;
    while i < end
        invariant
            from <= i <= end <= s@.len(),
            find_byte_in(s@, target, from as int, end as int) == find_byte_in(
                s@,
                target,
                i as int,
                end as int,
            ),
        decreases end - i,
    {
        if s[i] == target {
            return Some(i);
        }
        i = i + 1;
    }
    None
}

/// Scans for a CRLF pair starting in `s[from..end-1)`.
fn sl_find_crlf(s: &[u8], from: usize, end: usize) -> (r: Option<usize>)
    requires
        from <= end <= s@.len(),
    ensures
        match r {
            Some(u) => find_crlf(s@, from as int, end as int) == Some(u as int) && from <= u && u
                + 1 < end,
            None => find_crlf(s@, from as int, end as int) is None,
        },
{
    let mut i = from;
    while end - i > 1
        invariant
            from <= i,
            i <= end <= s@.len(),
            find_crlf(s@, from as int, end as int) == find_crlf(s@, i as int, end as int),
        decreases end - i,
    {
        if s[i] == 13 && s[i + 1] == 10 {
            return Some(i);
        }
        i = i + 1;
    }
    None
}

/// Whether the byte is ASCII whitespace.
fn ws_byte(b: u8) -> (r: bool)
    ensures
        r == is_ws(b),
{
    b == 32 || b == 9 || b == 10 || b == 12 || b == 13
}

/// First non-whitespace position in `s[a..b)`, or `b`.
fn sl_skip_ws(s: &[u8], a: usize, b: usize) -> (r: usize)
    requires
        a <= b <= s@.len(),
    ensures
        r as int == skip_ws(s@, a as int, b as int),
        a <= r <= b,
{
    let mut i = a;
    while i < b
        invariant
            a <= i <= b <= s@.len(),
            skip_ws(s@, a as int, b as int) == skip_ws(s@, i as int, b as int),
        decreases b - i,
    {
        if !ws_byte(s[i]) {
            return i;
        }
        i = i + 1;
    }
    i
}

/// Position after the last non-whitespace byte in `s[a..b)`, or `a`.
fn sl_rskip_ws(s: &[u8], a: usize, b: usize) -> (r: usize)
    requires
        a <= b <= s@.len(),
    ensures
        r as int == rskip_ws(s@, a as int, b as int),
        a <= r <= b,
{
    let mut i = b;
    while i > a
        invariant
            a <= i <= b <= s@.len(),
            rskip_ws(s@, a as int, b as int) == rskip_ws(s@, a as int, i as int),
        decreases i,
    {
        if !ws_byte(s[i - 1]) {
            return i;
        }
        i = i - 1;
    }
    i
}

/// Value of a decimal digit string in `s[a..b)`, when it is one and fits.
fn parse_dec(s: &[u8], a: usize, b: usize) -> (r: Option<usize>)
    requires
        a <= b <= s@.len(),
    ensures
        ({
            let sub = s@.subrange(a as int, b as int);
            match r {
                Some(x) => all_digits(sub) && dec_val(sub) == x as int,
                None => !all_digits(sub) || dec_val(sub) > usize::MAX,
            }
        }),
{
    let ghost sub = s@.subrange(a as int, b as int);
    if a == b {
        return None;
    }
    let mut acc: usize = 0;
    let mut big = false;
    let mut i = a;
    while i < b
        invariant
            a <= i <= b <= s@.len(),
            sub == s@.subrange(a as int, b as int),
            forall|k: int| a <= k < i ==> is_digit(#[trigger] s@[k]),
            ({
                let pre = s@.subrange(a as int, i as int);
                if big {
                    dec_val(pre) > usize::MAX
                } else {
                    acc == dec_val(pre)
                }
            }),
        decreases b - i,
    {
        let c = s[i];
        if c < 48 || c > 57 {
            assert(!is_digit(sub[i - a]));
            return None;
        }
        proof {
            let pre = s@.subrange(a as int, i as int);
            let pre2 = s@.subrange(a as int, i + 1);
            assert(pre2.drop_last() =~= pre);
            assert(pre2.last() == s@[i as int]);
            assert(dec_val(pre2) == dec_val(pre) * 10 + (s@[i as int] - 48));
            lemma_dec_val_nonneg(pre);
        }
        let d = (c - 48) as usize;
        if !big {
            match acc.checked_mul(10) {
                Some(m) => match m.checked_add(d) {
                    Some(v) => {
                        acc = v;
                    },
                    None => {
                        big = true;
                    },
                },
                None => {
                    big = true;
                },
            }
        }
        i = i + 1;
    }
    assert(sub =~= s@.subrange(a as int, b as int));
    assert(all_digits(sub));
    if big {
        None
    } else {
        Some(acc)
    }
}

/// Value of a hexadecimal digit string in `s[a..b)`, when it is one and fits.
fn parse_hex(s: &[u8], a: usize, b: usize) -> (r: Option<usize>)
    requires
        a <= b <= s@.len(),
    ensures
        ({
            let sub = s@.subrange(a as int, b as int);
            match r {
                Some(x) => all_hex(sub) && hex_val(sub) == x as int,
                None => !all_hex(sub) || hex_val(sub) > usize::MAX,
            }
        }),
{
    let ghost sub = s@.subrange(a as int, b as int);
    if a == b {
        return None;
    }
    let mut acc: usize = 0;
    let mut big = false;
    let mut i = a;
    while i < b
        invariant
            a <= i <= b <= s@.len(),
            sub == s@.subrange(a as int, b as int),
            forall|k: int| a <= k < i ==> is_hex_digit(#[trigger] s@[k]),
            ({
                let pre = s@.subrange(a as int, i as int);
                if big {
                    hex_val(pre) > usize::MAX
                } else {
                    acc == hex_val(pre)
                }
            }),
        decreases b - i,
    {
        let c = s[i];
        let dv: u8 = if 48 <= c && c <= 57 {
            c - 48
        } else if 97 <= c && c <= 102 {
            c - 87
        } else if 65 <= c && c <= 70 {
            c - 55
        } else {
            assert(!is_hex_digit(sub[i - a]));
            return None;
        };
        assert(is_hex_digit(s@[i as int]) && dv == hex_digit_val(s@[i as int]));
        proof {
            let pre = s@.subrange(a as int, i as int);
            let pre2 = s@.subrange(a as int, i + 1);
            assert(pre2.drop_last() =~= pre);
            assert(pre2.last() == s@[i as int]);
            assert(hex_val(pre2) == hex_val(pre) * 16 + hex_digit_val(s@[i as int]));
            lemma_hex_val_nonneg(pre);
        }
        let d = dv as usize;
        if !big {
            match acc.checked_mul(16) {
                Some(m) => match m.checked_add(d) {
                    Some(v) => {
                        acc = v;
                    },
                    None => {
                        big = true;
                    },
                },
                None => {
                    big = true;
                },
            }
        }
        i = i + 1;
    }
    assert(sub =~= s@.subrange(a as int, b as int));
    assert(all_hex(sub));
    if big {
        None
    } else {
        Some(acc)
    }
}

/// Result of scanning for one line.
enum LineRes {
    More,
    TooLong,
    Line(Vec<u8>, usize),
}

/// Finds the next line at `pos`, copying its payload out.
fn scan_line(s: &[u8], pos: usize) -> (r: LineRes)
    requires
        pos <= s@.len(),
    ensures
        match next_line(s@, pos as int) {
            LineStep::More => r is More,
            LineStep::TooLong => r is TooLong,
            LineStep::Line { payload, next } => r matches LineRes::Line(v, n) && v@ == payload && n
                as int == next && pos < n <= s@.len(),
        },
{
    let len = s.len();
    match sl_find_byte(s, 10, pos, len) {
        None => LineRes::More,
        Some(j) => {
            let e = if j > pos && s[j - 1] == 13 {
                j - 1
            } else {
                j
            };
            let payload = slice_to_vec(&s[pos..e]);
            if payload.len() > MAX_LINE_LEN {
                LineRes::TooLong
            } else {
                LineRes::Line(payload, j + 1)
            }
        },
    }
}

fn lit_reqmod() -> (r: Vec<u8>)
    ensures
        r@ == token_reqmod(),
{
    let v: Vec<u8> = vec![82u8, 69, 81, 77, 79, 68];
    proof {
        assert(v@ =~= token_reqmod());
    }
    v
}

fn lit_respmod() -> (r: Vec<u8>)
    ensures
        r@ == token_respmod(),
{
    let v: Vec<u8> = vec![82u8, 69, 83, 80, 77, 79, 68];
    proof {
        assert(v@ =~= token_respmod());
    }
    v
}

fn lit_options() -> (r: Vec<u8>)
    ensures
        r@ == token_options(),
{
    let v: Vec<u8> = vec![79u8, 80, 84, 73, 79, 78, 83];
    proof {
        assert(v@ =~= token_options());
    }
    v
}

fn lit_icap_1_0() -> (r: Vec<u8>)
    ensures
        r@ == token_icap_1_0(),
{
    let v: Vec<u8> = vec![73u8, 67, 65, 80, 47, 49, 46, 48];
    proof {
        assert(v@ =~= token_icap_1_0());
    }
    v
}

fn lit_icap_1_1() -> (r: Vec<u8>)
    ensures
        r@ == token_icap_1_1(),
{
    let v: Vec<u8> = vec![73u8, 67, 65, 80, 47, 49, 46, 49];
    proof {
        assert(v@ =~= token_icap_1_1());
    }
    v
}

/// What the start-line parser hands to the driver.
enum StartExec {
    Req(Method, String, Version),
    Resp(Version, u16, String),
}

/// The executable start-line result carries the same data as the model's.
spec fn start_exec_matches(r: StartExec, info: StartInfo) -> bool {
    match (r, info) {
        (StartExec::Req(m, u, v), StartInfo::Req { method, uri, version }) => m == method && u@
            == uri && v == version,
        (StartExec::Resp(v, st, re), StartInfo::Resp { version, status, reason }) => v == version
            && st == status && re@ == reason,
        _ => false,
    }
}

/// Splits and classifies the start line.
fn parse_start_line_exec(line: &Vec<u8>) -> (r: Result<StartExec, Error>)
    ensures
        match parse_start_line(line@) {
            Ok(info) => r matches Ok(se) && start_exec_matches(se, info),
            Err(e) => r matches Err(e2) && e2 == e,
        },
{
    let s = line.as_slice();
    let len = s.len();
    let j1 = match sl_find_byte(s, 32, 0, len) {
        None => {
            return Err(Error::InvalidMethod);
        },
        Some(j) => j,
    };
    let j2 = match sl_find_byte(s, 32, j1 + 1, len) {
        None => {
            return Err(Error::InvalidMethod);
        },
        Some(j) => j,
    };
    match sl_find_byte(s, 32, j2 + 1, len) {
        Some(_) => {
            return Err(Error::InvalidMethod);
        },
        None => {},
    }
    let t0 = slice_to_vec(&s[0..j1]);
    let is_resp = t0.len() >= 5 && t0[0] == 73 && t0[1] == 67 && t0[2] == 65 && t0[3] == 80 && t0[4]
        == 47;
    proof {
        if is_resp {
            assert(t0@.subrange(0, 5) =~= icap_prefix());
        } else if starts_with(t0@, icap_prefix()) {
            assert(t0@[0] == icap_prefix()[0]);
            assert(t0@[1] == icap_prefix()[1]);
            assert(t0@[2] == icap_prefix()[2]);
            assert(t0@[3] == icap_prefix()[3]);
            assert(t0@[4] == icap_prefix()[4]);
        }
        assert(is_resp == starts_with(t0@, icap_prefix()));
    }
    if is_resp {
        let version = if bytes_equal(&t0, &lit_icap_1_0()) {
            Version::V1_0
        } else if bytes_equal(&t0, &lit_icap_1_1()) {
            Version::V1_1
        } else {
            return Err(Error::InvalidVersion);
        };
        let status = match parse_dec(s, j1 + 1, j2) {
            None => {
                return Err(Error::InvalidStatus);
            },
            Some(x) => {
                if x < 100 || x > 599 {
                    return Err(Error::InvalidStatus);
                }
                x as u16
            },
        };
        let reason = match vec_to_string(slice_to_vec(&s[j2 + 1..len])) {
            None => {
                return Err(Error::InvalidFormat);
            },
            Some(t) => t,
        };
        Ok(StartExec::Resp(version, status, reason))
    } else {
        let method = if bytes_equal(&t0, &lit_reqmod()) {
            Method::ReqMod
        } else if bytes_equal(&t0, &lit_respmod()) {
            Method::RespMod
        } else if bytes_equal(&t0, &lit_options()) {
            Method::Options
        } else {
            return Err(Error::InvalidMethod);
        };
        let uri = match vec_to_string(slice_to_vec(&s[j1 + 1..j2])) {
            None => {
                return Err(Error::InvalidFormat);
            },
            Some(t) => t,
        };
        let t2 = slice_to_vec(&s[j2 + 1..len]);
        let version = if bytes_equal(&t2, &lit_icap_1_0()) {
            Version::V1_0
        } else if bytes_equal(&t2, &lit_icap_1_1()) {
            Version::V1_1
        } else {
            return Err(Error::InvalidVersion);
        };
        Ok(StartExec::Req(method, uri, version))
    }
}

/// Whether the byte may appear in a header name.
fn token_byte_exec(b: u8) -> (r: bool)
    ensures
        r == is_token_byte(b),
{
    (48 <= b && b <= 57) || (97 <= b && b <= 122) || (65 <= b && b <= 90) || b == 33 || b == 35
        || b == 36 || b == 37 || b == 38 || b == 39 || b == 42 || b == 43 || b == 45 || b == 46
        || b == 94 || b == 95 || b == 96 || b == 124 || b == 126
}

/// Whether every byte of the vector may appear in a header name.
fn all_token_bytes_exec(v: &Vec<u8>) -> (r: bool)
    ensures
        r == (forall|k: int| 0 <= k < v@.len() ==> is_token_byte(#[trigger] v@[k])),
{
    let n = v.len();
    let mut i: usize = 0;
    while i < n
        invariant
            0 <= i <= n == v@.len(),
            forall|k: int| 0 <= k < i ==> is_token_byte(#[trigger] v@[k]),
        decreases n - i,
    {
        if !token_byte_exec(v[i]) {
            return false;
        }
        i = i + 1;
    }
    true
}

/// Whether every byte of the vector may appear in a header value.
fn all_value_bytes_exec(v: &Vec<u8>) -> (r: bool)
    ensures
        r == (forall|k: int| 0 <= k < v@.len() ==> is_value_byte(#[trigger] v@[k])),
{
    let n = v.len();
    let mut i: usize = 0;
    while i < n
        invariant
            0 <= i <= n == v@.len(),
            forall|k: int| 0 <= k < i ==> is_value_byte(#[trigger] v@[k]),
        decreases n - i,
    {
        let b = v[i];
        if !(b == 9 || (32 <= b && b <= 126)) {
            return false;
        }
        i = i + 1;
    }
    true
}

/// Parses one header line into its stored (name, value) pair.
fn header_entry_exec(line: &Vec<u8>) -> (r: Result<(Vec<u8>, Vec<u8>), Error>)
    ensures
        match header_entry(line@) {
            Err(e) => r matches Err(e2) && e2 == e,
            Ok((k, v)) => r matches Ok(p) && p.0@ == k && p.1@ == v && valid_header_name(k)
                && valid_header_value(v),
        },
{
    let s = line.as_slice();
    let len = s.len();
    match sl_find_byte(s, 58, 0, len) {
        None => Err(Error::InvalidFormat),
        Some(j) => {
            let ghost name = line@.subrange(0, j as int);
            let ghost value = trim_range(line@, j + 1, len as int);
            let a2 = sl_skip_ws(s, j + 1, len);
            let b2 = sl_rskip_ws(s, a2, len);
            if j > MAX_HEADER_NAME_LEN {
                return Err(Error::MessageTooLarge);
            }
            if b2 - a2 > MAX_HEADER_VALUE_LEN {
                return Err(Error::MessageTooLarge);
            }
            let name_vec = slice_to_vec(&s[0..j]);
            let val_vec = slice_to_vec(&s[a2..b2]);
            assert(name_vec@ == name && val_vec@ == value);
            if j == 0 || !all_token_bytes_exec(&name_vec) {
                assert(!is_token_seq(name));
                return Err(Error::InvalidFormat);
            }
            if !all_value_bytes_exec(&val_vec) {
                return Err(Error::InvalidFormat);
            }
            let low = lower_ascii(name_vec.as_slice());
            proof {
                assert forall|i: int| 0 <= i < low@.len() implies is_token_byte(#[trigger] low@[i])
                    && crate::msg::lower_byte(low@[i]) == low@[i] by {
                    assert(low@[i] == crate::msg::lower_byte(name[i]));
                    assert(is_token_byte(name[i]));
                }
                assert(valid_header_name(lower_bytes(name)));
                assert(valid_header_value(value));
            }
            Ok((low, val_vec))
        },
    }
}

/// Result of reading the header block.
enum HdrRes {
    More,
    Fail(Error),
    Done(HeaderMap, usize),
}

/// Reads header lines from `pos` until the empty line, into a header map.
fn parse_headers_exec(s: &[u8], pos: usize) -> (r: HdrRes)
    requires
        pos <= s@.len(),
    ensures
        match parse_headers_from(s@, pos as int, Seq::empty()) {
            HeadersStep::More => r is More,
            HeadersStep::Fail(e) => r matches HdrRes::Fail(e2) && e2 == e,
            HeadersStep::Done { entries, next } => r matches HdrRes::Done(hm, n) && hm@ == entries
                && n as int == next && pos < n <= s@.len() && hm.wf(),
        },
{
    let mut hm = HeaderMap::new();
    let mut cur = pos;
    loop
        invariant
            pos <= cur <= s@.len(),
            hm.wf(),
            parse_headers_from(s@, pos as int, Seq::empty()) == parse_headers_from(
                s@,
                cur as int,
                hm@,
            ),
        decreases s@.len() - cur,
    {
        match scan_line(s, cur) {
            LineRes::More => {
                return HdrRes::More;
            },
            LineRes::TooLong => {
                return HdrRes::Fail(Error::MessageTooLarge);
            },
            LineRes::Line(payload, nxt) => {
                if payload.len() == 0 {
                    return HdrRes::Done(hm, nxt);
                }
                match header_entry_exec(&payload) {
                    Err(e) => {
                        return HdrRes::Fail(e);
                    },
                    Ok((k, v)) => {
                        proof {
                            crate::msg::lemma_insert_entry_wf(hm@, k@, v@);
                        }
                        hm.insert(k, v);
                        if hm.len() > MAX_HEADERS {
                            return HdrRes::Fail(Error::MessageTooLarge);
                        }
                        cur = nxt;
                    },
                }
            },
        }
    }
}

fn lit_null_body() -> (r: Vec<u8>)
    ensures
        r@ == token_null_body(),
{
    let v: Vec<u8> = vec![110u8, 117, 108, 108, 45, 98, 111, 100, 121];
    proof {
        assert(v@ =~= token_null_body());
    }
    v
}

fn lit_req_hdr() -> (r: Vec<u8>)
    ensures
        r@ == token_req_hdr(),
{
    let v: Vec<u8> = vec![114u8, 101, 113, 45, 104, 100, 114];
    proof {
        assert(v@ =~= token_req_hdr());
    }
    v
}

fn lit_req_body() -> (r: Vec<u8>)
    ensures
        r@ == token_req_body(),
{
    let v: Vec<u8> = vec![114u8, 101, 113, 45, 98, 111, 100, 121];
    proof {
        assert(v@ =~= token_req_body());
    }
    v
}

fn lit_res_hdr() -> (r: Vec<u8>)
    ensures
        r@ == token_res_hdr(),
{
    let v: Vec<u8> = vec![114u8, 101, 115, 45, 104, 100, 114];
    proof {
        assert(v@ =~= token_res_hdr());
    }
    v
}

fn lit_res_body() -> (r: Vec<u8>)
    ensures
        r@ == token_res_body(),
{
    let v: Vec<u8> = vec![114u8, 101, 115, 45, 98, 111, 100, 121];
    proof {
        assert(v@ =~= token_res_body());
    }
    v
}

fn lit_opt_body() -> (r: Vec<u8>)
    ensures
        r@ == token_opt_body(),
{
    let v: Vec<u8> = vec![111u8, 112, 116, 45, 98, 111, 100, 121];
    proof {
        assert(v@ =~= token_opt_body());
    }
    v
}

fn lit_encapsulated() -> (r: Vec<u8>)
    ensures
        r@ == enc_header_key(),
{
    let v: Vec<u8> = vec![101u8, 110, 99, 97, 112, 115, 117, 108, 97, 116, 101, 100];
    proof {
        assert(v@ =~= enc_header_key());
    }
    v
}

/// Maps a case-folded table token to its section kind.
fn section_kind_exec(name: &Vec<u8>) -> (r: Option<SectionType>)
    ensures
        r == section_kind_of(name@),
{
    if bytes_equal(name, &lit_null_body()) {
        Some(SectionType::NullBody)
    } else if bytes_equal(name, &lit_req_hdr()) {
        Some(SectionType::RequestHeader)
    } else if bytes_equal(name, &lit_req_body()) {
        Some(SectionType::RequestBody)
    } else if bytes_equal(name, &lit_res_hdr()) {
        Some(SectionType::ResponseHeader)
    } else if bytes_equal(name, &lit_res_body()) {
        Some(SectionType::ResponseBody)
    } else if bytes_equal(name, &lit_opt_body()) {
        Some(SectionType::OptionsBody)
    } else {
        None
    }
}

/// The model's table: offsets widened to mathematical integers.
spec fn table_view(t: Seq<(SectionType, usize)>) -> Seq<(SectionType, int)> {
    t.map_values(|e: (SectionType, usize)| (e.0, e.1 as int))
}

/// Parses one `name=offset` item over `v[a..b)`.
fn enc_item_exec(v: &[u8], a: usize, b: usize) -> (r: Result<(SectionType, usize), Error>)
    requires
        a <= b <= v@.len(),
    ensures
        match parse_enc_item(v@, a as int, b as int) {
            Err(e) => r matches Err(e2) && e2 == e,
            Ok(entry) => r matches Ok(p) && p.0 == entry.0 && p.1 as int == entry.1,
        },
{
    let a1 = sl_skip_ws(v, a, b);
    let b1 = sl_rskip_ws(v, a1, b);
    let je = match sl_find_byte(v, 61, a1, b1) {
        None => {
            return Err(Error::InvalidEncapsulated);
        },
        Some(j) => j,
    };
    let n1 = sl_rskip_ws(v, a1, je);
    let o1 = sl_skip_ws(v, je + 1, b1);
    let name_low = lower_ascii(&v[a1..n1]);
    let kind = match section_kind_exec(&name_low) {
        None => {
            return Err(Error::InvalidEncapsulated);
        },
        Some(k) => k,
    };
    match parse_dec(v, o1, b1) {
        None => Err(Error::InvalidEncapsulated),
        Some(x) => Ok((kind, x)),
    }
}

/// First index whose entry's offset exceeds `off`, or the length.
fn find_insert_pos(out: &Vec<(SectionType, usize)>, off: usize) -> (k: usize)
    ensures
        0 <= k <= out@.len(),
        forall|m: int| 0 <= m < k ==> (#[trigger] out@[m]).1 <= off,
        (k as int) < out@.len() ==> off < out@[k as int].1,
{
    let n = out.len();
    let mut k: usize = 0;
    while k < n
        invariant
            0 <= k <= n == out@.len(),
            forall|m: int| 0 <= m < k ==> (#[trigger] out@[m]).1 <= off,
        decreases n - k,
    {
        if off < out[k].1 {
            return k;
        }
        k = k + 1;
    }
    k
}

/// Inserts a table entry behind every entry with an offset not larger than
/// its own.
fn table_insert_sorted(out: &mut Vec<(SectionType, usize)>, e: (SectionType, usize))
    requires
        offsets_sorted(table_view(old(out)@)),
    ensures
        table_view(final(out)@) == insert_sorted((e.0, e.1 as int), table_view(old(out)@)),
        offsets_sorted(table_view(final(out)@)),
        final(out)@.len() == old(out)@.len() + 1,
{
    let ghost tv = table_view(out@);
    let ghost ev = (e.0, e.1 as int);
    let k = find_insert_pos(out, e.1);
    proof {
        assert forall|m: int| 0 <= m < k implies (#[trigger] tv[m]).1 <= ev.1 by {
            assert(tv[m] == (out@[m].0, out@[m].1 as int));
        }
        if (k as int) < tv.len() {
            assert(tv[k as int] == (out@[k as int].0, out@[k as int].1 as int));
            assert(ev.1 < tv[k as int].1);
        }
        crate::model::lemma_insert_sorted_at(ev, tv, k as int);
    }
    out.insert(k, e);
    assert(table_view(out@) =~= tv.take(k as int) + seq![ev] + tv.skip(k as int));
    proof {
        lemma_insert_sorted(ev, tv, usize::MAX as int);
    }
}

/// Parses and sorts the whole `Encapsulated` header value.
fn parse_enc_table_exec(v: &Vec<u8>) -> (r: Result<Vec<(SectionType, usize)>, Error>)
    ensures
        match parse_enc_items(v@, 0, Seq::empty()) {
            Err(e) => r matches Err(e2) && e2 == e,
            Ok(items) => r matches Ok(t) && table_view(t@) == sort_by_offset(items)
                && offsets_sorted(table_view(t@)) && t@.len() == items.len(),
        },
{
    let s = v.as_slice();
    let len = s.len();
    let mut items: Vec<(SectionType, usize)> = Vec::new();
    let mut pos: usize = 0;
    proof {
        assert(table_view(items@) =~= Seq::<(SectionType, int)>::empty());
    }
    loop
        invariant
            0 <= pos <= len == v@.len(),
            s@ == v@,
            parse_enc_items(v@, 0, Seq::empty()) == parse_enc_items(v@, pos as int, table_view(
                items@,
            )),
        decreases v@.len() - pos,
    {
        let stop = match sl_find_byte(s, 44, pos, len) {
            None => len,
            Some(j) => j,
        };
        match enc_item_exec(s, pos, stop) {
            Err(e) => {
                return Err(e);
            },
            Ok(entry) => {
                let ghost before = table_view(items@);
                items.push(entry);
                assert(table_view(items@) =~= before.push((entry.0, entry.1 as int)));
                if stop == len {
                    // end of the item list: sort what was collected
                    let ghost parsed = table_view(items@);
                    assert(parse_enc_items(v@, 0, Seq::empty()) == Ok::<
                        Seq<(SectionType, int)>,
                        Error,
                    >(parsed));
                    let n = items.len();
                    let mut out: Vec<(SectionType, usize)> = Vec::new();
                    let mut i: usize = 0;
                    proof {
                        assert(table_view(out@) =~= sort_by_offset(parsed.take(0)));
                    }
                    while i < n
                        invariant
                            0 <= i <= n == items@.len(),
                            parsed == table_view(items@),
                            out@.len() == i,
                            table_view(out@) == sort_by_offset(parsed.take(i as int)),
                            offsets_sorted(table_view(out@)),
                        decreases n - i,
                    {
                        let e = items[i];
                        proof {
                            assert(parsed.take(i + 1).drop_last() =~= parsed.take(i as int));
                            assert(parsed.take(i + 1).last() == (e.0, e.1 as int));
                        }
                        table_insert_sorted(&mut out, e);
                        i = i + 1;
                    }
                    assert(parsed.take(n as int) =~= parsed);
                    return Ok(out);
                }
                pos = stop + 1;
            },
        }
    }
}

/// Result of decoding one chunked range.
enum ChunkRes {
    More,
    Fail(Error),
    Done(Vec<u8>),
}

/// Decodes chunked transfer encoding over `s[start..end)`.
fn decode_chunked_exec(s: &[u8], start: usize, end: usize) -> (r: ChunkRes)
    requires
        start <= end <= s@.len(),
    ensures
        match decode_chunked(s@, start as int, end as int, Seq::empty()) {
            ChunkStep::More => r is More,
            ChunkStep::Fail(e) => r matches ChunkRes::Fail(e2) && e2 == e,
            ChunkStep::Done(d) => r matches ChunkRes::Done(v) && v@ == d,
        },
{
    let mut acc: Vec<u8> = Vec::new();
    let mut pos = start;
    proof {
        assert(acc@ =~= Seq::<u8>::empty());
    }
    loop
        invariant
            start <= pos <= end <= s@.len(),
            decode_chunked(s@, start as int, end as int, Seq::empty()) == decode_chunked(
                s@,
                pos as int,
                end as int,
                acc@,
            ),
        decreases end - pos,
    {
        if pos >= end {
            return ChunkRes::More;
        }
        let j = match sl_find_crlf(s, pos, end) {
            None => {
                return ChunkRes::More;
            },
            Some(j) => j,
        };
        let a2 = sl_skip_ws(s, pos, j);
        let b2 = sl_rskip_ws(s, a2, j);
        let size = match parse_hex(s, a2, b2) {
            None => {
                return ChunkRes::Fail(Error::InvalidChunkSize);
            },
            Some(x) => x,
        };
        if size == 0 {
            return ChunkRes::Done(acc);
        }
        let rem = end - (j + 2);
        if size > rem || rem - size < 2 {
            assert(j + 2 + size + 2 > end);
            return ChunkRes::More;
        }
        assert(j + 2 + size + 2 <= end);
        let dstart = j + 2;
        let dend = dstart + size;
        if s[dend] == 13 && s[dend + 1] == 10 {
            let ghost acc0 = acc@;
            acc.extend_from_slice(&s[dstart..dend]);
            assert(acc@ =~= acc0 + s@.subrange(dstart as int, dend as int));
            pos = dend + 2;
        } else {
            return ChunkRes::Fail(Error::InvalidChunkEncoding);
        }
    }
}

/// The model's section store: payloads as byte sequences.
spec fn secs_view(s: Seq<(SectionType, Vec<u8>)>) -> Seq<(SectionType, Seq<u8>)> {
    s.map_values(|e: (SectionType, Vec<u8>)| (e.0, e.1@))
}

/// Index of the first stored section of the given kind.
fn sec_find_exec(acc: &Vec<(SectionType, Vec<u8>)>, kind: SectionType) -> (r: Option<usize>)
    ensures
        match r {
            Some(i) => 0 <= i < acc@.len() && sec_find(secs_view(acc@), kind, 0) == Some(i as int),
            None => sec_find(secs_view(acc@), kind, 0) is None,
        },
{
    let ghost sv = secs_view(acc@);
    let n = acc.len();
    let mut i: usize = 0;
    while i < n
        invariant
            0 <= i <= n == acc@.len(),
            sv == secs_view(acc@),
            sec_find(sv, kind, 0) == sec_find(sv, kind, i as int),
        decreases n - i,
    {
        proof {
            assert(sv[i as int] == (acc@[i as int].0, acc@[i as int].1@));
        }
        if acc[i].0 == kind {
            return Some(i);
        }
        i = i + 1;
    }
    None
}

/// Stores a section's payload under its kind, replacing an earlier one.
fn sec_store(acc: &mut Vec<(SectionType, Vec<u8>)>, kind: SectionType, data: Vec<u8>)
    ensures
        secs_view(final(acc)@) == sec_insert(secs_view(old(acc)@), kind, data@),
{
    let ghost sv = secs_view(acc@);
    let ghost dv = data@;
    match sec_find_exec(acc, kind) {
        Some(i) => {
            acc.set(i, (kind, data));
            assert(secs_view(acc@) =~~= sv.update(i as int, (kind, dv)));
        },
        None => {
            acc.push((kind, data));
            assert(secs_view(acc@) =~~= sv.push((kind, dv)));
        },
    }
}

/// Copies the payload stored under the given kind, if any.
fn sec_take(acc: &Vec<(SectionType, Vec<u8>)>, kind: SectionType) -> (r: Option<bytes::Bytes>)
    ensures
        crate::msg::opt_bytes_view(r) == opt_section(secs_view(acc@), kind),
{
    match sec_find_exec(acc, kind) {
        Some(i) => {
            proof {
                assert(secs_view(acc@)[i as int] == (acc@[i as int].0, acc@[i as int].1@));
            }
            Some(bytes_of_vec(clone_bytes(&acc[i].1)))
        },
        None => None,
    }
}

/// Whether a section of the given kind was stored.
fn sec_has(acc: &Vec<(SectionType, Vec<u8>)>, kind: SectionType) -> (r: bool)
    ensures
        r == has_section(secs_view(acc@), kind),
{
    let f = sec_find_exec(acc, kind);
    f.is_some()
}

/// Result of carving the encapsulated region.
enum BodyRes {
    More,
    Fail(Error),
    Done(Vec<(SectionType, Vec<u8>)>),
}

/// Walks the sorted section table over the buffer, from `base` on.
fn extract_sections_exec(s: &[u8], base: usize, table: &Vec<(SectionType, usize)>) -> (r: BodyRes)
    requires
        base <= s@.len(),
        offsets_sorted(table_view(table@)),
    ensures
        match extract_sections(s@, base as int, table_view(table@), 0, Seq::empty()) {
            BodyStep::More => r is More,
            BodyStep::Fail(e) => r matches BodyRes::Fail(e2) && e2 == e,
            BodyStep::Done(secs) => r matches BodyRes::Done(v) && secs_view(v@) == secs,
        },
{
    let ghost tv = table_view(table@);
    let n = table.len();
    let slen = s.len();
    let mut acc: Vec<(SectionType, Vec<u8>)> = Vec::new();
    let mut i: usize = 0;
    proof {
        assert(secs_view(acc@) =~= Seq::<(SectionType, Seq<u8>)>::empty());
    }
    while i < n
        invariant
            0 <= i <= n == table@.len(),
            base <= slen == s@.len(),
            tv == table_view(table@),
            offsets_sorted(tv),
            extract_sections(s@, base as int, tv, 0, Seq::empty()) == extract_sections(
                s@,
                base as int,
                tv,
                i as int,
                secs_view(acc@),
            ),
        decreases n - i,
    {
        let kind = table[i].0;
        let off = table[i].1;
        proof {
            assert(tv[i as int] == (table@[i as int].0, table@[i as int].1 as int));
        }
        if slen - base < off {
            return BodyRes::More;
        }
        let start = base + off;
        let lim = if i + 1 < n {
            let off2 = table[i + 1].1;
            proof {
                assert(tv[i + 1] == (table@[i + 1].0, table@[i + 1].1 as int));
                assert(tv[i as int].1 <= tv[i + 1].1);
            }
            if off2 > slen - base {
                slen
            } else {
                base + off2
            }
        } else {
            slen
        };
        assert(start <= lim <= slen);
        if kind == SectionType::RequestBody || kind == SectionType::ResponseBody || kind
            == SectionType::OptionsBody {
            match decode_chunked_exec(s, start, lim) {
                ChunkRes::More => {
                    return BodyRes::More;
                },
                ChunkRes::Fail(e) => {
                    return BodyRes::Fail(e);
                },
                ChunkRes::Done(data) => {
                    sec_store(&mut acc, kind, data);
                },
            }
        } else {
            let data = slice_to_vec(&s[start..lim]);
            sec_store(&mut acc, kind, data);
        }
        i = i + 1;
    }
    BodyRes::Done(acc)
}

/// Derives which encapsulation variant applies from the sections stored.
fn assemble_exec(acc: &Vec<(SectionType, Vec<u8>)>) -> (r: Encapsulated)
    ensures
        r@ == assemble_enc(secs_view(acc@)),
{
    if sec_has(acc, SectionType::NullBody) {
        Encapsulated::NullBody
    } else if sec_has(acc, SectionType::OptionsBody) {
        Encapsulated::Options { body: sec_take(acc, SectionType::OptionsBody) }
    } else {
        let has_rq = sec_has(acc, SectionType::RequestHeader) || sec_has(
            acc,
            SectionType::RequestBody,
        );
        let has_rs = sec_has(acc, SectionType::ResponseHeader) || sec_has(
            acc,
            SectionType::ResponseBody,
        );
        if has_rq && has_rs {
            Encapsulated::RequestResponse {
                req_header: sec_take(acc, SectionType::RequestHeader),
                req_body: sec_take(acc, SectionType::RequestBody),
                res_header: sec_take(acc, SectionType::ResponseHeader),
                res_body: sec_take(acc, SectionType::ResponseBody),
            }
        } else if has_rq {
            Encapsulated::RequestOnly {
                header: sec_take(acc, SectionType::RequestHeader),
                body: sec_take(acc, SectionType::RequestBody),
            }
        } else if has_rs {
            Encapsulated::ResponseOnly {
                header: sec_take(acc, SectionType::ResponseHeader),
                body: sec_take(acc, SectionType::ResponseBody),
            }
        } else {
            Encapsulated::NullBody
        }
    }
}

/// Packages the parsed parts into the owned message value.
fn build_msg(se: StartExec, hm: HeaderMap, enc: Encapsulated) -> (r: IcapMessage)
    ensures
        r.wf() == hm.wf(),
        match se {
            StartExec::Req(m, u, v) => r@ == crate::msg::MessageView::Request {
                method: m,
                uri: u@,
                version: v,
                headers: hm@,
                encapsulated: enc@,
            },
            StartExec::Resp(v, st, re) => r@ == crate::msg::MessageView::Response {
                version: v,
                status: st,
                reason: re@,
                headers: hm@,
                encapsulated: enc@,
            },
        },
{
    match se {
        StartExec::Req(method, uri, version) => IcapMessage::Request {
            method,
            uri,
            version,
            headers: hm,
            encapsulated: enc,
        },
        StartExec::Resp(version, status, reason) => IcapMessage::Response {
            version,
            status,
            reason,
            headers: hm,
            encapsulated: enc,
        },
    }
}

/// What one pass over the accumulated bytes decided.
enum DriveRes {
    More(State),
    Fail(Error, State),
    Msg(IcapMessage, usize),
}

/// One pass of the state machine over the accumulated bytes.
fn drive(s: &[u8]) -> (r: DriveRes)
    ensures
        ({
            let (o, st) = parse_step(s@);
            match o {
                Outcome::More => r matches DriveRes::More(st2) && st2 == st,
                Outcome::Fail(e) => r matches DriveRes::Fail(e2, st2) && e2 == e && st2 == st,
                Outcome::Msg { m, consumed } => r matches DriveRes::Msg(msg, c) && msg@ == m
                    && msg.wf() && c as int == consumed && c <= s@.len(),
            }
        }),
{
    match scan_line(s, 0) {
        LineRes::More => DriveRes::More(State::StartLine),
        LineRes::TooLong => DriveRes::Fail(Error::MessageTooLarge, State::StartLine),
        LineRes::Line(payload, nxt) => match parse_start_line_exec(&payload) {
            Err(e) => DriveRes::Fail(e, State::StartLine),
            Ok(se) => match parse_headers_exec(s, nxt) {
                HdrRes::More => DriveRes::More(State::Headers),
                HdrRes::Fail(e) => DriveRes::Fail(e, State::Headers),
                HdrRes::Done(hm, hdr_end) => {
                    let enc_val = hm.get_raw(&lit_encapsulated());
                    let needs = match &se {
                        StartExec::Req(m, _, _) => !(*m == Method::Options),
                        StartExec::Resp(_, _, _) => false,
                    };
                    if enc_val.is_none() && needs {
                        DriveRes::Fail(Error::MissingEncapsulated, State::Headers)
                    } else {
                        match enc_val {
                            None => {
                                proof {
                                    let e0 = Seq::<(SectionType, int)>::empty();
                                    assert(extract_sections(
                                        s@,
                                        hdr_end as int,
                                        e0,
                                        0,
                                        Seq::empty(),
                                    ) == BodyStep::Done(Seq::empty()));
                                    assert(sec_find(Seq::empty(), SectionType::NullBody, 0)
                                        is None);
                                    assert(assemble_enc(Seq::empty())
                                        == crate::msg::EncView::NullBody);
                                }
                                let msg = build_msg(se, hm, Encapsulated::NullBody);
                                DriveRes::Msg(msg, hdr_end)
                            },
                            Some(v) => match parse_enc_table_exec(&v) {
                                Err(e) => DriveRes::Fail(e, State::EncapsulatedHeader),
                                Ok(table) => match extract_sections_exec(s, hdr_end, &table) {
                                    BodyRes::More => DriveRes::More(State::Body),
                                    BodyRes::Fail(e) => DriveRes::Fail(e, State::Body),
                                    BodyRes::Done(secs) => {
                                        let enc = assemble_exec(&secs);
                                        let msg = build_msg(se, hm, enc);
                                        let c = if table.len() > 0 {
                                            s.len()
                                        } else {
                                            hdr_end
                                        };
                                        DriveRes::Msg(msg, c)
                                    },
                                },
                            },
                        }
                    }
                },
            },
        },
    }
}

/// The resumable ICAP message parser: a growing receive buffer plus the
/// observable stage.
pub struct MessageParser {
    buffer: bytes::BytesMut,
    state: State,
}

impl MessageParser {
    /// The bytes accumulated and not yet consumed by a returned message.
    pub closed spec fn buffer_view(&self) -> Seq<u8> {
        buf_view(self.buffer)
    }

    /// The stage reported by `state`.
    pub closed spec fn state_view(&self) -> State {
        self.state
    }

    /// A fresh parser, waiting for a start line.
    pub fn new() -> (r: MessageParser)
        ensures
            r.buffer_view() == Seq::<u8>::empty(),
            r.state_view() == State::StartLine,
    {
        MessageParser { buffer: buf_with_capacity(4096), state: State::StartLine }
    }

    /// The stage the parser has reached, for observation by tests.
    pub fn state(&self) -> (r: State)
        ensures
            r == self.state_view(),
    {
        self.state
    }

    /// Appends bytes to the receive buffer without parsing them.
    pub fn feed(&mut self, data: &[u8])
        ensures
            final(self).buffer_view() == old(self).buffer_view() + data@,
            final(self).state_view() == old(self).state_view(),
    {
        buf_extend(&mut self.buffer, data);
    }

    /// Reads the next line off the front of the buffer: its payload without
    /// the terminator, or nothing when no line feed has arrived yet, or an
    /// error when the line breaches the length cap.
    pub fn read_line(&mut self) -> (r: Result<Option<Vec<u8>>, Error>)
        ensures
            final(self).state_view() == old(self).state_view(),
            ({
                let before = old(self).buffer_view();
                let after = final(self).buffer_view();
                match next_line(before, 0) {
                    LineStep::More => r matches Ok(x) && x is None && after == before,
                    LineStep::TooLong => r matches Err(e) && e == Error::MessageTooLarge && after
                        == before,
                    LineStep::Line { payload, next } => r matches Ok(x) && x matches Some(v) && v@
                        == payload && after == before.skip(next),
                }
            }),
    {
        let res = {
            let s = buf_as_slice(&self.buffer);
            scan_line(s, 0)
        };
        match res {
            LineRes::More => Ok(None),
            LineRes::TooLong => Err(Error::MessageTooLarge),
            LineRes::Line(v, n) => {
                buf_advance(&mut self.buffer, n);
                Ok(Some(v))
            },
        }
    }

    /// Appends the given bytes and advances the state machine as far as they
    /// allow. Returns a message exactly once per completed message, nothing
    /// when more bytes are needed, and an error on the first protocol
    /// violation; what it returns is a function of the concatenation of all
    /// bytes fed in so far, so any split of the stream into calls yields the
    /// same messages.
    pub fn parse(&mut self, data: &[u8]) -> (r: Result<Option<IcapMessage>, Error>)
        ensures
            ({
                let total = old(self).buffer_view() + data@;
                &&& final(self).state_view() == spec_state(total)
                &&& match parse_outcome(total) {
                    Outcome::More => r matches Ok(x) && x is None && final(self).buffer_view()
                        == total,
                    Outcome::Fail(e) => r matches Err(e2) && e2 == e && final(self).buffer_view()
                        == total,
                    Outcome::Msg { m, consumed } => r matches Ok(x) && x matches Some(msg) && msg@
                        == m && msg.wf() && final(self).buffer_view() == total.skip(consumed),
                }
            }),
    {
        buf_extend(&mut self.buffer, data);
        let res = {
            let s = buf_as_slice(&self.buffer);
            drive(s)
        };
        match res {
            DriveRes::More(st) => {
                self.state = st;
                Ok(None)
            },
            DriveRes::Fail(e, st) => {
                self.state = st;
                Err(e)
            },
            DriveRes::Msg(msg, c) => {
                buf_advance(&mut self.buffer, c);
                self.state = State::StartLine;
                Ok(Some(msg))
            },
        }
    }
}

} // verus!
