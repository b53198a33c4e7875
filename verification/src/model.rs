//! Mathematical model of the wire protocol: a one-shot parse of the bytes
//! accumulated so far. The executable parser's contracts state that it
//! returns exactly what these functions compute on the concatenation of all
//! bytes fed in, which is what makes resumption across arbitrary read
//! boundaries sound.

use vstd::prelude::*;
use vstd::utf8::{valid_utf8, decode_utf8};
use crate::msg::{
    Method, Version, State, SectionType, Error, EncView, MessageView, lower_bytes, is_token_byte,
    is_value_byte, lookup, insert_entry, MAX_HEADERS, MAX_HEADER_NAME_LEN, MAX_HEADER_VALUE_LEN,
    MAX_LINE_LEN,
};

verus! {

/// Index of the first occurrence of `target` in `s` at or after `i` and
/// before `end`.
pub open spec fn find_byte_in(s: Seq<u8>, target: u8, i: int, end: int) -> Option<int>
    decreases end - i,
{
    if i < 0 || i >= end || i >= s.len() {
        None
    } else if s[i] == target {
        Some(i)
    } else {
        find_byte_in(s, target, i + 1, end)
    }
}

pub proof fn lemma_find_byte_in_bounds(s: Seq<u8>, target: u8, i: int, end: int)
    requires
        0 <= i,
    ensures
        find_byte_in(s, target, i, end) matches Some(j) ==> i <= j < end && j < s.len(),
    decreases end - i,
{
    if i < end && i < s.len() && s[i] != target {
        lemma_find_byte_in_bounds(s, target, i + 1, end);
    }
}

/// Index of the first CRLF pair in `s` at or after `i`, whose LF lies before
/// `end`.
pub open spec fn find_crlf(s: Seq<u8>, i: int, end: int) -> Option<int>
    decreases end - i,
{
    if i < 0 || i + 1 >= end || i + 1 >= s.len() {
        None
    } else if s[i] == 13 && s[i + 1] == 10 {
        Some(i)
    } else {
        find_crlf(s, i + 1, end)
    }
}

pub proof fn lemma_find_crlf_bounds(s: Seq<u8>, i: int, end: int)
    requires
        0 <= i,
    ensures
        find_crlf(s, i, end) matches Some(j) ==> i <= j && j + 1 < end && j + 1 < s.len(),
    decreases end - i,
{
    if i + 1 < end && i + 1 < s.len() && !(s[i] == 13 && s[i + 1] == 10) {
        lemma_find_crlf_bounds(s, i + 1, end);
    }
}

/// ASCII whitespace, as trimmed around header values and table items.
pub open spec fn is_ws(b: u8) -> bool {
    b == 32 || b == 9 || b == 10 || b == 12 || b == 13
}

/// First index in `[a, b)` holding a non-whitespace byte, or `b`.
pub open spec fn skip_ws(s: Seq<u8>, a: int, b: int) -> int
    decreases b - a,
{
    if a < 0 || a >= b || a >= s.len() {
        a
    } else if is_ws(s[a]) {
        skip_ws(s, a + 1, b)
    } else {
        a
    }
}

pub proof fn lemma_skip_ws_bounds(s: Seq<u8>, a: int, b: int)
    requires
        0 <= a <= b,
    ensures
        a <= skip_ws(s, a, b) <= b,
    decreases b - a,
{
    if a < b && a < s.len() && is_ws(s[a]) {
        lemma_skip_ws_bounds(s, a + 1, b);
    }
}

/// One past the last non-whitespace byte in `[a, b)`, or `a`.
pub open spec fn rskip_ws(s: Seq<u8>, a: int, b: int) -> int
    decreases b - a,
{
    if b <= a || b < 0 || b > s.len() {
        b
    } else if is_ws(s[b - 1]) {
        rskip_ws(s, a, b - 1)
    } else {
        b
    }
}

pub proof fn lemma_rskip_ws_bounds(s: Seq<u8>, a: int, b: int)
    requires
        0 <= a <= b,
    ensures
        a <= rskip_ws(s, a, b) <= b,
    decreases b - a,
{
    if a < b && b <= s.len() && is_ws(s[b - 1]) {
        lemma_rskip_ws_bounds(s, a, b - 1);
    }
}

/// The range `[a, b)` of `s` with leading and trailing ASCII whitespace
/// removed.
pub open spec fn trim_range(s: Seq<u8>, a: int, b: int) -> Seq<u8> {
    let a2 = skip_ws(s, a, b);
    let b2 = rskip_ws(s, a2, b);
    s.subrange(a2, b2)
}

/// ASCII decimal digit.
pub open spec fn is_digit(b: u8) -> bool {
    48 <= b <= 57
}

/// Non-empty, all decimal digits.
pub open spec fn all_digits(s: Seq<u8>) -> bool {
    s.len() > 0 && forall|i: int| 0 <= i < s.len() ==> is_digit(#[trigger] s[i])
}

/// Value of a decimal digit string.
pub open spec fn dec_val(s: Seq<u8>) -> int
    decreases s.len(),
{
    if s.len() == 0 {
        0
    } else {
        dec_val(s.drop_last()) * 10 + (s.last() - 48)
    }
}

/// ASCII hexadecimal digit.
pub open spec fn is_hex_digit(b: u8) -> bool {
    is_digit(b) || (97 <= b <= 102) || (65 <= b <= 70)
}

/// Value of one hexadecimal digit.
pub open spec fn hex_digit_val(b: u8) -> int {
    if is_digit(b) {
        b - 48
    } else if 97 <= b <= 102 {
        b - 87
    } else {
        b - 55
    }
}

/// Non-empty, all hexadecimal digits.
pub open spec fn all_hex(s: Seq<u8>) -> bool {
    s.len() > 0 && forall|i: int| 0 <= i < s.len() ==> is_hex_digit(#[trigger] s[i])
}

/// Value of a hexadecimal digit string.
pub open spec fn hex_val(s: Seq<u8>) -> int
    decreases s.len(),
{
    if s.len() == 0 {
        0
    } else {
        hex_val(s.drop_last()) * 16 + hex_digit_val(s.last())
    }
}

pub proof fn lemma_dec_val_nonneg(s: Seq<u8>)
    requires
        forall|i: int| 0 <= i < s.len() ==> is_digit(#[trigger] s[i]),
    ensures
        dec_val(s) >= 0,
    decreases s.len(),
{
    if s.len() > 0 {
        assert(forall|i: int|
            0 <= i < s.drop_last().len() ==> is_digit(#[trigger] s.drop_last()[i]));
        lemma_dec_val_nonneg(s.drop_last());
    }
}

pub proof fn lemma_hex_val_nonneg(s: Seq<u8>)
    requires
        forall|i: int| 0 <= i < s.len() ==> is_hex_digit(#[trigger] s[i]),
    ensures
        hex_val(s) >= 0,
    decreases s.len(),
{
    if s.len() > 0 {
        assert(forall|i: int|
            0 <= i < s.drop_last().len() ==> is_hex_digit(#[trigger] s.drop_last()[i]));
        lemma_hex_val_nonneg(s.drop_last());
    }
}

/// Outcome of looking for the next line at `pos`: more bytes needed, line too
/// long, or the line's payload (terminator stripped) with the index just past
/// its line feed.
pub ghost enum LineStep {
    More,
    TooLong,
    Line { payload: Seq<u8>, next: int },
}

/// Reads the next line: everything up to the first line feed, with a trailing
/// carriage return stripped. A lone line feed is accepted as a terminator.
pub open spec fn next_line(s: Seq<u8>, pos: int) -> LineStep {
    match find_byte_in(s, 10, pos, s.len() as int) {
        None => LineStep::More,
        Some(j) => {
            let payload = if j > pos && s[j - 1] == 13 {
                s.subrange(pos, j - 1)
            } else {
                s.subrange(pos, j)
            };
            if payload.len() > MAX_LINE_LEN {
                LineStep::TooLong
            } else {
                LineStep::Line { payload, next: j + 1 }
            }
        },
    }
}

pub open spec fn token_reqmod() -> Seq<u8> {
    seq![82u8, 69, 81, 77, 79, 68]
}

pub open spec fn token_respmod() -> Seq<u8> {
    seq![82u8, 69, 83, 80, 77, 79, 68]
}

pub open spec fn token_options() -> Seq<u8> {
    seq![79u8, 80, 84, 73, 79, 78, 83]
}

pub open spec fn token_icap_1_0() -> Seq<u8> {
    seq![73u8, 67, 65, 80, 47, 49, 46, 48]
}

pub open spec fn token_icap_1_1() -> Seq<u8> {
    seq![73u8, 67, 65, 80, 47, 49, 46, 49]
}

pub open spec fn icap_prefix() -> Seq<u8> {
    seq![73u8, 67, 65, 80, 47]
}

pub open spec fn starts_with(s: Seq<u8>, prefix: Seq<u8>) -> bool {
    s.len() >= prefix.len() && s.subrange(0, prefix.len() as int) == prefix
}

/// The version named by a whole start-line token, if it is one of the two
/// this parser accepts.
pub open spec fn version_of_token(t: Seq<u8>) -> Option<Version> {
    if t == token_icap_1_0() {
        Some(Version::V1_0)
    } else if t == token_icap_1_1() {
        Some(Version::V1_1)
    } else {
        None
    }
}

/// What a start line carries once classified.
pub ghost enum StartInfo {
    Req { method: Method, uri: Seq<char>, version: Version },
    Resp { version: Version, status: u16, reason: Seq<char> },
}

/// Splits the start line on single spaces into exactly three tokens and
/// classifies it: a first token beginning with `ICAP/` makes it a response,
/// anything else a request.
pub open spec fn parse_start_line(line: Seq<u8>) -> Result<StartInfo, Error> {
    let len = line.len() as int;
    match find_byte_in(line, 32, 0, len) {
        None => Err(Error::InvalidMethod),
        Some(j1) => match find_byte_in(line, 32, j1 + 1, len) {
            None => Err(Error::InvalidMethod),
            Some(j2) => {
                if find_byte_in(line, 32, j2 + 1, len) is Some {
                    Err(Error::InvalidMethod)
                } else {
                    let t0 = line.subrange(0, j1);
                    let t1 = line.subrange(j1 + 1, j2);
                    let t2 = line.subrange(j2 + 1, len);
                    if starts_with(t0, icap_prefix()) {
                        match version_of_token(t0) {
                            None => Err(Error::InvalidVersion),
                            Some(v) => {
                                if !all_digits(t1) || dec_val(t1) < 100 || dec_val(t1) > 599 {
                                    Err(Error::InvalidStatus)
                                } else if !valid_utf8(t2) {
                                    Err(Error::InvalidFormat)
                                } else {
                                    Ok(
                                        StartInfo::Resp {
                                            version: v,
                                            status: dec_val(t1) as u16,
                                            reason: decode_utf8(t2),
                                        },
                                    )
                                }
                            },
                        }
                    } else {
                        let m = if t0 == token_reqmod() {
                            Some(Method::ReqMod)
                        } else if t0 == token_respmod() {
                            Some(Method::RespMod)
                        } else if t0 == token_options() {
                            Some(Method::Options)
                        } else {
                            None
                        };
                        match m {
                            None => Err(Error::InvalidMethod),
                            Some(method) => {
                                if !valid_utf8(t1) {
                                    Err(Error::InvalidFormat)
                                } else {
                                    match version_of_token(t2) {
                                        None => Err(Error::InvalidVersion),
                                        Some(v) => Ok(
                                            StartInfo::Req {
                                                method,
                                                uri: decode_utf8(t1),
                                                version: v,
                                            },
                                        ),
                                    }
                                }
                            },
                        }
                    }
                }
            },
        },
    }
}

/// Non-empty, all RFC 7230 token bytes.
pub open spec fn is_token_seq(s: Seq<u8>) -> bool {
    s.len() > 0 && forall|i: int| 0 <= i < s.len() ==> is_token_byte(#[trigger] s[i])
}

/// All bytes allowed in a header value.
pub open spec fn all_value_bytes(s: Seq<u8>) -> bool {
    forall|i: int| 0 <= i < s.len() ==> is_value_byte(#[trigger] s[i])
}

/// Parses one header line into a lower-cased name and a trimmed value,
/// enforcing the length caps and the character rules.
pub open spec fn header_entry(line: Seq<u8>) -> Result<(Seq<u8>, Seq<u8>), Error> {
    match find_byte_in(line, 58, 0, line.len() as int) {
        None => Err(Error::InvalidFormat),
        Some(j) => {
            let name = line.subrange(0, j);
            let value = trim_range(line, j + 1, line.len() as int);
            if name.len() > MAX_HEADER_NAME_LEN {
                Err(Error::MessageTooLarge)
            } else if value.len() > MAX_HEADER_VALUE_LEN {
                Err(Error::MessageTooLarge)
            } else if !is_token_seq(name) {
                Err(Error::InvalidFormat)
            } else if !all_value_bytes(value) {
                Err(Error::InvalidFormat)
            } else {
                Ok((lower_bytes(name), value))
            }
        },
    }
}

/// Outcome of reading the header block.
pub ghost enum HeadersStep {
    More,
    Fail(Error),
    Done { entries: Seq<(Seq<u8>, Seq<u8>)>, next: int },
}

/// Reads header lines until the empty line, storing each parsed header with
/// replacement and enforcing the header-count cap.
pub open spec fn parse_headers_from(
    s: Seq<u8>,
    pos: int,
    acc: Seq<(Seq<u8>, Seq<u8>)>,
) -> HeadersStep
    decreases s.len() - pos,
    when 0 <= pos
    via parse_headers_from_decreases
{
    match next_line(s, pos) {
        LineStep::More => HeadersStep::More,
        LineStep::TooLong => HeadersStep::Fail(Error::MessageTooLarge),
        LineStep::Line { payload, next } => {
            if payload.len() == 0 {
                HeadersStep::Done { entries: acc, next }
            } else {
                match header_entry(payload) {
                    Err(e) => HeadersStep::Fail(e),
                    Ok((k, v)) => {
                        let acc2 = insert_entry(acc, k, v);
                        if acc2.len() > MAX_HEADERS {
                            HeadersStep::Fail(Error::MessageTooLarge)
                        } else {
                            parse_headers_from(s, next, acc2)
                        }
                    },
                }
            }
        },
    }
}

#[via_fn]
proof fn parse_headers_from_decreases(s: Seq<u8>, pos: int, acc: Seq<(Seq<u8>, Seq<u8>)>) {
    lemma_find_byte_in_bounds(s, 10, pos, s.len() as int);
}

/// The lower-cased name of the `Encapsulated` header.
pub open spec fn enc_header_key() -> Seq<u8> {
    seq![101u8, 110, 99, 97, 112, 115, 117, 108, 97, 116, 101, 100]
}

pub open spec fn token_null_body() -> Seq<u8> {
    seq![110u8, 117, 108, 108, 45, 98, 111, 100, 121]
}

pub open spec fn token_req_hdr() -> Seq<u8> {
    seq![114u8, 101, 113, 45, 104, 100, 114]
}

pub open spec fn token_req_body() -> Seq<u8> {
    seq![114u8, 101, 113, 45, 98, 111, 100, 121]
}

pub open spec fn token_res_hdr() -> Seq<u8> {
    seq![114u8, 101, 115, 45, 104, 100, 114]
}

pub open spec fn token_res_body() -> Seq<u8> {
    seq![114u8, 101, 115, 45, 98, 111, 100, 121]
}

pub open spec fn token_opt_body() -> Seq<u8> {
    seq![111u8, 112, 116, 45, 98, 111, 100, 121]
}

/// The section kind named by a case-folded table token.
pub open spec fn section_kind_of(name: Seq<u8>) -> Option<SectionType> {
    if name == token_null_body() {
        Some(SectionType::NullBody)
    } else if name == token_req_hdr() {
        Some(SectionType::RequestHeader)
    } else if name == token_req_body() {
        Some(SectionType::RequestBody)
    } else if name == token_res_hdr() {
        Some(SectionType::ResponseHeader)
    } else if name == token_res_body() {
        Some(SectionType::ResponseBody)
    } else if name == token_opt_body() {
        Some(SectionType::OptionsBody)
    } else {
        None
    }
}

/// Parses one `name=offset` item in the range `[a, b)` of the header value,
/// tolerating whitespace around the name, the `=` and the offset.
pub open spec fn parse_enc_item(v: Seq<u8>, a: int, b: int) -> Result<(SectionType, int), Error> {
    let a1 = skip_ws(v, a, b);
    let b1 = rskip_ws(v, a1, b);
    match find_byte_in(v, 61, a1, b1) {
        None => Err(Error::InvalidEncapsulated),
        Some(je) => {
            let n1 = rskip_ws(v, a1, je);
            let o1 = skip_ws(v, je + 1, b1);
            match section_kind_of(lower_bytes(v.subrange(a1, n1))) {
                None => Err(Error::InvalidEncapsulated),
                Some(kind) => {
                    let digits = v.subrange(o1, b1);
                    if !all_digits(digits) || dec_val(digits) > usize::MAX {
                        Err(Error::InvalidEncapsulated)
                    } else {
                        Ok((kind, dec_val(digits)))
                    }
                },
            }
        },
    }
}

/// Parses the comma-separated items of the `Encapsulated` header value from
/// `pos` on.
pub open spec fn parse_enc_items(
    v: Seq<u8>,
    pos: int,
    acc: Seq<(SectionType, int)>,
) -> Result<Seq<(SectionType, int)>, Error>
    decreases v.len() - pos,
    when 0 <= pos
    via parse_enc_items_decreases
{
    let stop = match find_byte_in(v, 44, pos, v.len() as int) {
        None => v.len() as int,
        Some(j) => j,
    };
    match parse_enc_item(v, pos, stop) {
        Err(e) => Err(e),
        Ok(entry) => {
            let acc2 = acc.push(entry);
            if stop == v.len() {
                Ok(acc2)
            } else {
                parse_enc_items(v, stop + 1, acc2)
            }
        },
    }
}

#[via_fn]
proof fn parse_enc_items_decreases(v: Seq<u8>, pos: int, acc: Seq<(SectionType, int)>) {
    lemma_find_byte_in_bounds(v, 44, pos, v.len() as int);
}

/// Inserts a table entry behind every entry with an offset not larger than
/// its own, so that equal offsets keep their declaration order.
pub open spec fn insert_sorted(
    e: (SectionType, int),
    s: Seq<(SectionType, int)>,
) -> Seq<(SectionType, int)>
    decreases s.len(),
{
    if s.len() == 0 {
        seq![e]
    } else if e.1 < s[0].1 {
        seq![e] + s
    } else {
        seq![s[0]] + insert_sorted(e, s.skip(1))
    }
}

/// Stable sort of the section table by offset, ascending.
pub open spec fn sort_by_offset(s: Seq<(SectionType, int)>) -> Seq<(SectionType, int)>
    decreases s.len(),
{
    if s.len() == 0 {
        Seq::empty()
    } else {
        insert_sorted(s.last(), sort_by_offset(s.drop_last()))
    }
}

/// Offsets appear in non-decreasing order.
pub open spec fn offsets_sorted(s: Seq<(SectionType, int)>) -> bool {
    forall|i: int, j: int| 0 <= i < j < s.len() ==> (#[trigger] s[i]).1 <= (#[trigger] s[j]).1
}

/// Every offset lies in `[0, bound]`.
pub open spec fn offsets_in_range(s: Seq<(SectionType, int)>, bound: int) -> bool {
    forall|i: int| 0 <= i < s.len() ==> 0 <= (#[trigger] s[i]).1 <= bound
}

pub proof fn lemma_insert_sorted(e: (SectionType, int), s: Seq<(SectionType, int)>, bound: int)
    requires
        offsets_sorted(s),
        offsets_in_range(s, bound),
        0 <= e.1 <= bound,
    ensures
        offsets_sorted(insert_sorted(e, s)),
        offsets_in_range(insert_sorted(e, s), bound),
        insert_sorted(e, s).len() == s.len() + 1,
    decreases s.len(),
{
    if s.len() == 0 {
    } else if e.1 < s[0].1 {
    } else {
        assert(forall|i: int, j: int|
            0 <= i < j < s.skip(1).len() ==> (#[trigger] s.skip(1)[i]).1 <= (#[trigger] s.skip(
                1,
            )[j]).1);
        lemma_insert_sorted(e, s.skip(1), bound);
        let r = seq![s[0]] + insert_sorted(e, s.skip(1));
        assert forall|i: int, j: int| 0 <= i < j < r.len() implies (#[trigger] r[i]).1 <= (
        #[trigger] r[j]).1 by {
            if i == 0 {
                if j == 1 {
                    if insert_sorted(e, s.skip(1)).len() > 0 {
                        let h = insert_sorted(e, s.skip(1))[0];
                        if s.skip(1).len() == 0 {
                            assert(r[j] == e);
                        } else if e.1 < s.skip(1)[0].1 {
                            assert(r[j] == e);
                        } else {
                            assert(r[j] == s.skip(1)[0]);
                            assert(s[0].1 <= s[1].1);
                        }
                    }
                } else {
                    assert(r[1].1 <= r[j].1);
                    assert(r[0].1 <= r[1].1);
                }
            }
        }
    }
}

/// Inserting an element whose place is `k` splits the sequence there.
pub proof fn lemma_insert_sorted_at(e: (SectionType, int), s: Seq<(SectionType, int)>, k: int)
    requires
        0 <= k <= s.len(),
        forall|m: int| 0 <= m < k ==> (#[trigger] s[m]).1 <= e.1,
        k < s.len() ==> e.1 < s[k].1,
    ensures
        insert_sorted(e, s) == s.take(k) + seq![e] + s.skip(k),
    decreases s.len(),
{
    if s.len() == 0 {
        assert(insert_sorted(e, s) =~= s.take(k) + seq![e] + s.skip(k));
    } else if e.1 < s[0].1 {
        assert(k == 0);
        assert(insert_sorted(e, s) =~= s.take(k) + seq![e] + s.skip(k));
    } else {
        assert(s[0].1 <= e.1);
        assert(k >= 1);
        assert(forall|m: int| 0 <= m < k - 1 ==> (#[trigger] s.skip(1)[m]).1 <= e.1) by {
            assert(forall|m: int| 0 <= m < k - 1 ==> s.skip(1)[m] == s[m + 1]);
        }
        lemma_insert_sorted_at(e, s.skip(1), k - 1);
        assert(insert_sorted(e, s) =~= s.take(k) + seq![e] + s.skip(k));
    }
}

/// Outcome of decoding one chunked range.
pub ghost enum ChunkStep {
    More,
    Fail(Error),
    Done(Seq<u8>),
}

/// Decodes HTTP chunked transfer encoding over the range `[pos, end)`: a hex
/// size line terminated by CRLF, that many data bytes, a mandatory CRLF, and
/// so on until a zero size; bytes after the zero chunk within the range are
/// ignored. A range that ends mid-chunk or without a zero chunk needs more
/// data.
pub open spec fn decode_chunked(s: Seq<u8>, pos: int, end: int, acc: Seq<u8>) -> ChunkStep
    decreases end - pos,
    when 0 <= pos
    via decode_chunked_decreases
{
    if pos >= end {
        ChunkStep::More
    } else {
        match find_crlf(s, pos, end) {
            None => ChunkStep::More,
            Some(j) => {
                let digits = trim_range(s, pos, j);
                if !all_hex(digits) || hex_val(digits) > usize::MAX {
                    ChunkStep::Fail(Error::InvalidChunkSize)
                } else {
                    let size = hex_val(digits);
                    if size == 0 {
                        ChunkStep::Done(acc)
                    } else if j + 2 + size + 2 > end {
                        ChunkStep::More
                    } else {
                        if s[j + 2 + size] == 13 && s[j + 2 + size + 1] == 10 {
                            decode_chunked(s, j + 2 + size + 2, end, acc + s.subrange(j + 2, j + 2 + size))
                        } else {
                            ChunkStep::Fail(Error::InvalidChunkEncoding)
                        }
                    }
                }
            },
        }
    }
}

#[via_fn]
proof fn decode_chunked_decreases(s: Seq<u8>, pos: int, end: int, acc: Seq<u8>) {
    lemma_find_crlf_bounds(s, pos, end);
    if 0 <= pos && pos < end {
        match find_crlf(s, pos, end) {
            Some(j) => {
                let digits = trim_range(s, pos, j);
                if all_hex(digits) {
                    lemma_hex_val_nonneg(digits);
                }
            },
            None => {},
        }
    }
}

/// Index of the first stored section of the given kind.
pub open spec fn sec_find(s: Seq<(SectionType, Seq<u8>)>, kind: SectionType, i: int) -> Option<int>
    decreases s.len() - i,
{
    if i < 0 || i >= s.len() {
        None
    } else if s[i].0 == kind {
        Some(i)
    } else {
        sec_find(s, kind, i + 1)
    }
}

/// Stores a section's payload under its kind, replacing an earlier one.
pub open spec fn sec_insert(
    s: Seq<(SectionType, Seq<u8>)>,
    kind: SectionType,
    data: Seq<u8>,
) -> Seq<(SectionType, Seq<u8>)> {
    match sec_find(s, kind, 0) {
        Some(i) => s.update(i, (kind, data)),
        None => s.push((kind, data)),
    }
}

/// Whether a section of the given kind was stored.
pub open spec fn has_section(s: Seq<(SectionType, Seq<u8>)>, kind: SectionType) -> bool {
    sec_find(s, kind, 0) is Some
}

/// The payload stored under the given kind, if any.
pub open spec fn opt_section(s: Seq<(SectionType, Seq<u8>)>, kind: SectionType) -> Option<Seq<u8>> {
    match sec_find(s, kind, 0) {
        Some(i) => Some(s[i].1),
        None => None,
    }
}

/// Outcome of carving the encapsulated region into sections.
pub ghost enum BodyStep {
    More,
    Fail(Error),
    Done(Seq<(SectionType, Seq<u8>)>),
}

/// Walks the sorted section table. Entry `i` covers `[base + offset_i, base +
/// offset_{i+1})`, the terminal entry everything to the end of the buffer.
/// Body kinds are chunk-decoded, other kinds copied verbatim.
pub open spec fn extract_sections(
    s: Seq<u8>,
    base: int,
    table: Seq<(SectionType, int)>,
    i: int,
    acc: Seq<(SectionType, Seq<u8>)>,
) -> BodyStep
    decreases table.len() - i,
{
    if i < 0 || i >= table.len() {
        BodyStep::Done(acc)
    } else {
        let kind = table[i].0;
        let start = base + table[i].1;
        let end = if i + 1 < table.len() {
            base + table[i + 1].1
        } else {
            s.len() as int
        };
        if s.len() < start {
            BodyStep::More
        } else {
            let lim = if end > s.len() {
                s.len() as int
            } else {
                end
            };
            if kind == SectionType::RequestBody || kind == SectionType::ResponseBody || kind
                == SectionType::OptionsBody {
                match decode_chunked(s, start, lim, Seq::empty()) {
                    ChunkStep::More => BodyStep::More,
                    ChunkStep::Fail(e) => BodyStep::Fail(e),
                    ChunkStep::Done(data) => extract_sections(
                        s,
                        base,
                        table,
                        i + 1,
                        sec_insert(acc, kind, data),
                    ),
                }
            } else {
                extract_sections(s, base, table, i + 1, sec_insert(acc, kind, s.subrange(start, lim)))
            }
        }
    }
}

/// Derives which encapsulation variant applies from the kinds stored.
pub open spec fn assemble_enc(secs: Seq<(SectionType, Seq<u8>)>) -> EncView {
    if has_section(secs, SectionType::NullBody) {
        EncView::NullBody
    } else if has_section(secs, SectionType::OptionsBody) {
        EncView::Options { body: opt_section(secs, SectionType::OptionsBody) }
    } else if (has_section(secs, SectionType::RequestHeader) || has_section(
        secs,
        SectionType::RequestBody,
    )) && (has_section(secs, SectionType::ResponseHeader) || has_section(
        secs,
        SectionType::ResponseBody,
    )) {
        EncView::RequestResponse {
            req_header: opt_section(secs, SectionType::RequestHeader),
            req_body: opt_section(secs, SectionType::RequestBody),
            res_header: opt_section(secs, SectionType::ResponseHeader),
            res_body: opt_section(secs, SectionType::ResponseBody),
        }
    } else if has_section(secs, SectionType::RequestHeader) || has_section(
        secs,
        SectionType::RequestBody,
    ) {
        EncView::RequestOnly {
            header: opt_section(secs, SectionType::RequestHeader),
            body: opt_section(secs, SectionType::RequestBody),
        }
    } else if has_section(secs, SectionType::ResponseHeader) || has_section(
        secs,
        SectionType::ResponseBody,
    ) {
        EncView::ResponseOnly {
            header: opt_section(secs, SectionType::ResponseHeader),
            body: opt_section(secs, SectionType::ResponseBody),
        }
    } else {
        EncView::NullBody
    }
}

/// Whether this start line demands an `Encapsulated` header.
pub open spec fn requires_encapsulated(info: StartInfo) -> bool {
    match info {
        StartInfo::Req { method, .. } => method != Method::Options,
        StartInfo::Resp { .. } => false,
    }
}

/// Packages the parsed parts into the message view.
pub open spec fn build_message_view(
    info: StartInfo,
    headers: Seq<(Seq<u8>, Seq<u8>)>,
    encapsulated: EncView,
) -> MessageView {
    match info {
        StartInfo::Req { method, uri, version } => MessageView::Request {
            method,
            uri,
            version,
            headers,
            encapsulated,
        },
        StartInfo::Resp { version, status, reason } => MessageView::Response {
            version,
            status,
            reason,
            headers,
            encapsulated,
        },
    }
}

/// What one attempt to parse a message from the accumulated bytes yields.
pub ghost enum Outcome {
    More,
    Fail(Error),
    Msg { m: MessageView, consumed: int },
}

/// One-shot parse of the accumulated bytes, paired with the stage reached.
/// `consumed` is the whole buffer when a section table was declared (bytes
/// within the terminal range past the zero chunk are trailer bytes and are
/// dropped), and the end of the header block otherwise.
pub open spec fn parse_step(s: Seq<u8>) -> (Outcome, State) {
    match next_line(s, 0) {
        LineStep::More => (Outcome::More, State::StartLine),
        LineStep::TooLong => (Outcome::Fail(Error::MessageTooLarge), State::StartLine),
        LineStep::Line { payload, next } => match parse_start_line(payload) {
            Err(e) => (Outcome::Fail(e), State::StartLine),
            Ok(info) => match parse_headers_from(s, next, Seq::empty()) {
                HeadersStep::More => (Outcome::More, State::Headers),
                HeadersStep::Fail(e) => (Outcome::Fail(e), State::Headers),
                HeadersStep::Done { entries, next: hdr_end } => {
                    let enc = lookup(entries, enc_header_key());
                    if enc is None && requires_encapsulated(info) {
                        (Outcome::Fail(Error::MissingEncapsulated), State::Headers)
                    } else {
                        let table_r = match enc {
                            None => Ok(Seq::<(SectionType, int)>::empty()),
                            Some(v) => match parse_enc_items(v, 0, Seq::empty()) {
                                Ok(items) => Ok(sort_by_offset(items)),
                                Err(e) => Err(e),
                            },
                        };
                        match table_r {
                            Err(e) => (Outcome::Fail(e), State::EncapsulatedHeader),
                            Ok(table) => match extract_sections(s, hdr_end, table, 0, Seq::empty()) {
                                BodyStep::More => (Outcome::More, State::Body),
                                BodyStep::Fail(e) => (Outcome::Fail(e), State::Body),
                                BodyStep::Done(secs) => {
                                    let consumed = if table.len() > 0 {
                                        s.len() as int
                                    } else {
                                        hdr_end
                                    };
                                    (
                                        Outcome::Msg {
                                            m: build_message_view(info, entries, assemble_enc(secs)),
                                            consumed,
                                        },
                                        State::StartLine,
                                    )
                                },
                            },
                        }
                    }
                },
            },
        },
    }
}

/// The message, error or need-for-more-data that the accumulated bytes yield.
pub open spec fn parse_outcome(s: Seq<u8>) -> Outcome {
    parse_step(s).0
}

/// The stage the parser reports after working on the accumulated bytes.
pub open spec fn spec_state(s: Seq<u8>) -> State {
    parse_step(s).1
}

} // verus!
