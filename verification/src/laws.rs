//! The crate-level laws: statements that tie several operations together,
//! proved once and for all inputs.

use vstd::prelude::*;
use vstd::arithmetic::div_mod::lemma_fundamental_div_mod;
use crate::msg::{lower_byte, lower_bytes, lookup, MessageView, SectionType};
use crate::model::{
    find_byte_in, find_crlf, skip_ws, rskip_ws, trim_range, is_ws, is_hex_digit, hex_digit_val,
    all_hex, hex_val, ChunkStep, decode_chunked, Outcome, parse_outcome, next_line, LineStep,
    parse_headers_from, HeadersStep, extract_sections, BodyStep, enc_header_key,
    parse_start_line, lemma_find_byte_in_bounds,
};

verus! {

/// ASCII upper-casing of one byte.
pub open spec fn upper_byte(b: u8) -> u8 {
    if 97 <= b <= 122 {
        (b - 32) as u8
    } else {
        b
    }
}

/// ASCII upper-casing of a byte sequence.
pub open spec fn upper_bytes(s: Seq<u8>) -> Seq<u8> {
    s.map_values(|b: u8| upper_byte(b))
}

/// Header lookup is ASCII-case-insensitive: a name and its upper-cased form
/// find the same entry. `HeaderMap::get` lower-cases the name it is given
/// before searching, so this law says `get(n)` equals `get(upper(n))` for
/// every stored map and every name.
pub proof fn lemma_header_lookup_case_insensitive(
    entries: Seq<(Seq<u8>, Seq<u8>)>,
    name: Seq<u8>,
)
    ensures
        lookup(entries, lower_bytes(name)) == lookup(entries, lower_bytes(upper_bytes(name))),
{
    assert(lower_bytes(upper_bytes(name)) =~= lower_bytes(name)) by {
        assert forall|i: int| 0 <= i < name.len() implies lower_bytes(upper_bytes(name))[i]
            == lower_bytes(name)[i] by {
            assert(upper_bytes(name)[i] == upper_byte(name[i]));
            assert(lower_bytes(upper_bytes(name))[i] == lower_byte(upper_byte(name[i])));
            assert(lower_bytes(name)[i] == lower_byte(name[i]));
        }
    }
}

/// One call of `MessageParser::parse`, at the level of the model: the new
/// bytes are appended, the outcome is that of the concatenation, and on a
/// completed message the consumed bytes leave the buffer.
pub open spec fn spec_push(buffer: Seq<u8>, bytes: Seq<u8>) -> (Seq<u8>, Outcome) {
    let total = buffer + bytes;
    match parse_outcome(total) {
        Outcome::More => (total, Outcome::More),
        Outcome::Fail(e) => (total, Outcome::Fail(e)),
        Outcome::Msg { m, consumed } => (total.skip(consumed), Outcome::Msg { m, consumed }),
    }
}

/// Feeding a stream in two pushes is the same as feeding it in one, as long
/// as the first push still needed more data: the parser's contents and the
/// outcome agree. Applied inductively over a partition of a well-formed
/// stream, every way of splitting it into pushes yields the same messages as
/// one big push; `MessageParser::parse` promises exactly the behavior of
/// `spec_push` on the bytes accumulated so far.
pub proof fn lemma_push_chunking(buffer: Seq<u8>, a: Seq<u8>, b: Seq<u8>)
    requires
        parse_outcome(buffer + a) is More,
    ensures
        spec_push(spec_push(buffer, a).0, b) == spec_push(buffer, a + b),
{
    assert((buffer + a) + b =~= buffer + (a + b));
}

/// A line feed found within the accumulated bytes stays where it is when
/// more bytes arrive.
proof fn lemma_find_lf_extend(s: Seq<u8>, t: Seq<u8>, pos: int)
    requires
        0 <= pos,
        find_byte_in(s, 10, pos, s.len() as int) is Some,
    ensures
        find_byte_in(s + t, 10, pos, (s + t).len() as int) == find_byte_in(
            s,
            10,
            pos,
            s.len() as int,
        ),
    decreases s.len() - pos,
{
    lemma_find_byte_in_bounds(s, 10, pos, s.len() as int);
    assert((s + t)[pos] == s[pos]);
    if s[pos] != 10 {
        lemma_find_lf_extend(s, t, pos + 1);
    }
}

/// A completed line is read the same way when more bytes arrive.
proof fn lemma_next_line_extend(s: Seq<u8>, t: Seq<u8>, pos: int)
    requires
        0 <= pos,
        next_line(s, pos) matches LineStep::Line { .. } || next_line(s, pos) is TooLong,
    ensures
        next_line(s + t, pos) == next_line(s, pos),
{
    lemma_find_byte_in_bounds(s, 10, pos, s.len() as int);
    lemma_find_lf_extend(s, t, pos);
    let j = find_byte_in(s, 10, pos, s.len() as int).unwrap();
    if j > pos {
        assert((s + t)[j - 1] == s[j - 1]);
    }
    if j > pos && s[j - 1] == 13 {
        assert((s + t).subrange(pos, j - 1) =~= s.subrange(pos, j - 1));
    } else {
        assert((s + t).subrange(pos, j) =~= s.subrange(pos, j));
    }
}

/// A completed header block is read the same way when more bytes arrive.
proof fn lemma_headers_extend(s: Seq<u8>, t: Seq<u8>, pos: int, acc: Seq<(Seq<u8>, Seq<u8>)>)
    requires
        0 <= pos,
        parse_headers_from(s, pos, acc) matches HeadersStep::Done { .. },
    ensures
        parse_headers_from(s + t, pos, acc) == parse_headers_from(s, pos, acc),
    decreases s.len() - pos,
{
    lemma_find_byte_in_bounds(s, 10, pos, s.len() as int);
    match next_line(s, pos) {
        LineStep::More => {},
        LineStep::TooLong => {},
        LineStep::Line { payload, next } => {
            lemma_next_line_extend(s, t, pos);
            if payload.len() != 0 {
                match crate::model::header_entry(payload) {
                    Err(_) => {},
                    Ok((k, v)) => {
                        lemma_headers_extend(s, t, next, crate::msg::insert_entry(acc, k, v));
                    },
                }
            }
        },
    }
}

/// The headers a parsed message carries.
pub open spec fn headers_of(m: MessageView) -> Seq<(Seq<u8>, Seq<u8>)> {
    match m {
        MessageView::Request { headers, .. } => headers,
        MessageView::Response { headers, .. } => headers,
    }
}

/// A message that declares no `Encapsulated` header is delimited by its
/// header terminator alone: bytes that arrive after it change neither the
/// message nor how much of the stream it consumed. Together with
/// `lemma_push_chunking` this makes a stream of such messages yield the same
/// message sequence under every partition into pushes.
pub proof fn lemma_message_stable_under_extension(s: Seq<u8>, t: Seq<u8>)
    requires
        parse_outcome(s) matches Outcome::Msg { m, .. } && lookup(
            headers_of(m),
            enc_header_key(),
        ) is None,
    ensures
        parse_outcome(s + t) == parse_outcome(s),
{
    let u = s + t;
    match next_line(s, 0) {
        LineStep::More => {},
        LineStep::TooLong => {},
        LineStep::Line { payload, next } => {
            lemma_find_byte_in_bounds(s, 10, 0, s.len() as int);
            lemma_next_line_extend(s, t, 0);
            match parse_start_line(payload) {
                Err(_) => {},
                Ok(info) => {
                    match parse_headers_from(s, next, Seq::empty()) {
                        HeadersStep::More => {},
                        HeadersStep::Fail(_) => {},
                        HeadersStep::Done { entries, next: hdr_end } => {
                            lemma_headers_extend(s, t, next, Seq::empty());
                            let enc = lookup(entries, enc_header_key());
                            assert(enc is None);
                            let e0 = Seq::<(SectionType, int)>::empty();
                            assert(extract_sections(s, hdr_end, e0, 0, Seq::empty())
                                == BodyStep::Done(Seq::empty()));
                            assert(extract_sections(u, hdr_end, e0, 0, Seq::empty())
                                == BodyStep::Done(Seq::empty()));
                        },
                    }
                },
            }
        },
    }
}

/// The canonical digit for a value below sixteen: `0` to `9`, then `a` to
/// `f`.
pub open spec fn hex_digit_char(d: int) -> u8 {
    if d < 10 {
        (48 + d) as u8
    } else {
        (87 + d) as u8
    }
}

/// The canonical lower-case hexadecimal rendering of a non-negative number.
pub open spec fn hex_repr(n: int) -> Seq<u8>
    decreases n,
    when n >= 0
    via hex_repr_decreases
{
    if n < 16 {
        seq![hex_digit_char(n)]
    } else {
        hex_repr(n / 16).push(hex_digit_char(n % 16))
    }
}

#[via_fn]
proof fn hex_repr_decreases(n: int) {
    if n >= 16 {
        assert(n / 16 < n && n / 16 >= 0) by (nonlinear_arith)
            requires
                n >= 16,
        ;
    }
}

/// One encoded chunk: the size in hexadecimal, CRLF, the data, CRLF.
pub open spec fn encode_chunk(data: Seq<u8>) -> Seq<u8> {
    hex_repr(data.len() as int) + seq![13u8, 10] + data + seq![13u8, 10]
}

/// A whole chunked body: each chunk encoded in order, then the zero chunk.
pub open spec fn encode_chunks(chunks: Seq<Seq<u8>>) -> Seq<u8>
    decreases chunks.len(),
{
    if chunks.len() == 0 {
        seq![48u8, 13, 10]
    } else {
        encode_chunk(chunks[0]) + encode_chunks(chunks.skip(1))
    }
}

/// The logical payload: the chunk data concatenated.
pub open spec fn concat_chunks(chunks: Seq<Seq<u8>>) -> Seq<u8>
    decreases chunks.len(),
{
    if chunks.len() == 0 {
        Seq::empty()
    } else {
        chunks[0] + concat_chunks(chunks.skip(1))
    }
}

/// Every byte of the canonical rendering is a hexadecimal digit.
proof fn lemma_hex_repr_digits(n: int)
    requires
        n >= 0,
    ensures
        hex_repr(n).len() >= 1,
        forall|i: int| 0 <= i < hex_repr(n).len() ==> is_hex_digit(#[trigger] hex_repr(n)[i]),
    decreases n,
{
    if n < 16 {
        assert(is_hex_digit(hex_digit_char(n)));
    } else {
        assert(0 <= n % 16 < 16 && 0 <= n / 16) by (nonlinear_arith)
            requires
                n >= 16,
        ;
        lemma_hex_repr_digits(n / 16);
        assert(is_hex_digit(hex_digit_char(n % 16)));
    }
}

/// Parsing the canonical rendering gives the number back.
proof fn lemma_hex_repr_val(n: int)
    requires
        n >= 0,
    ensures
        all_hex(hex_repr(n)),
        hex_val(hex_repr(n)) == n,
    decreases n,
{
    lemma_hex_repr_digits(n);
    if n < 16 {
        assert(hex_digit_val(hex_digit_char(n)) == n);
        let r = hex_repr(n);
        assert(r.drop_last() =~= Seq::<u8>::empty());
        assert(hex_val(Seq::<u8>::empty()) == 0);
        assert(hex_val(r) == hex_val(r.drop_last()) * 16 + hex_digit_val(r.last()));
    } else {
        assert(0 <= n % 16 < 16 && 0 <= n / 16) by (nonlinear_arith)
            requires
                n >= 16,
        ;
        lemma_hex_repr_val(n / 16);
        let r = hex_repr(n);
        assert(r.drop_last() =~= hex_repr(n / 16));
        assert(r.last() == hex_digit_char(n % 16));
        assert(hex_digit_val(hex_digit_char(n % 16)) == n % 16);
        assert(hex_val(r) == hex_val(hex_repr(n / 16)) * 16 + (n % 16));
        lemma_fundamental_div_mod(n, 16);
    }
}

/// The first CRLF pair after `pos` is at `j` when no carriage return occurs
/// before `j`.
proof fn lemma_find_crlf_at(s: Seq<u8>, pos: int, end: int, j: int)
    requires
        0 <= pos <= j,
        j + 1 < end <= s.len(),
        forall|k: int| pos <= k < j ==> s[k] != 13,
        s[j] == 13,
        s[j + 1] == 10,
    ensures
        find_crlf(s, pos, end) == Some(j),
    decreases j - pos,
{
    if pos < j {
        lemma_find_crlf_at(s, pos + 1, end, j);
    }
}

/// Decoding an encoded chunk list appended at `pos` yields the concatenated
/// payload.
proof fn lemma_decode_encoded(s: Seq<u8>, pos: int, end: int, acc: Seq<u8>, chunks: Seq<Seq<u8>>)
    requires
        0 <= pos <= end <= s.len(),
        s.subrange(pos, end) == encode_chunks(chunks),
        forall|i: int| 0 <= i < chunks.len() ==> 0 < (#[trigger] chunks[i]).len() <= usize::MAX,
    ensures
        decode_chunked(s, pos, end, acc) == ChunkStep::Done(acc + concat_chunks(chunks)),
    decreases chunks.len(),
{
    let region = s.subrange(pos, end);
    if chunks.len() == 0 {
        assert(region.len() == 3);
        assert(s[pos] == 48 && s[pos + 1] == 13 && s[pos + 2] == 10) by {
            assert(region[0] == s[pos] && region[1] == s[pos + 1] && region[2] == s[pos + 2]);
        }
        lemma_find_crlf_at(s, pos, end, pos + 1);
        assert(skip_ws(s, pos, pos + 1) == pos);
        assert(rskip_ws(s, pos, pos + 1) == pos + 1);
        let digits = trim_range(s, pos, pos + 1);
        assert(digits =~= seq![48u8]);
        assert(all_hex(digits));
        assert(digits.drop_last() =~= Seq::<u8>::empty());
        assert(hex_val(Seq::<u8>::empty()) == 0);
        assert(hex_val(digits) == hex_val(digits.drop_last()) * 16 + hex_digit_val(digits.last()));
        assert(hex_val(digits) == 0);
        assert(acc + concat_chunks(chunks) =~= acc);
    } else {
        let c = chunks[0];
        let rest = chunks.skip(1);
        let h = hex_repr(c.len() as int);
        let hl = h.len() as int;
        lemma_hex_repr_digits(c.len() as int);
        lemma_hex_repr_val(c.len() as int);
        // layout: [pos, pos+hl) size digits; CRLF; data; CRLF; the rest
        assert(encode_chunks(chunks) == encode_chunk(c) + encode_chunks(rest));
        assert(encode_chunk(c).len() == hl + 4 + c.len());
        assert(encode_chunks(rest).len() >= 3) by {
            if rest.len() > 0 {
                assert(encode_chunks(rest) == encode_chunk(rest[0]) + encode_chunks(rest.skip(1)));
            }
        }
        assert forall|k: int| 0 <= k < encode_chunk(c).len() implies #[trigger] region[k]
            == encode_chunk(c)[k] by {
            assert(region[k] == (encode_chunk(c) + encode_chunks(rest))[k]);
        }
        assert forall|k: int| pos <= k < pos + hl implies #[trigger] s[k] == h[k - pos] by {
            assert(region[k - pos] == s[k]);
            assert(region[k - pos] == encode_chunk(c)[k - pos]);
            assert(encode_chunk(c)[k - pos] == h[k - pos]);
        }
        assert forall|k: int| pos <= k < pos + hl implies #[trigger] s[k] != 13 && !is_ws(s[k])
            && is_hex_digit(s[k]) by {
            assert(s[k] == h[k - pos]);
            assert(is_hex_digit(h[k - pos]));
        }
        assert(encode_chunk(c)[hl] == 13 && encode_chunk(c)[hl + 1] == 10);
        assert(s[pos + hl] == 13 && s[pos + hl + 1] == 10) by {
            assert(region[hl] == s[pos + hl]);
            assert(region[hl + 1] == s[pos + hl + 1]);
        }
        lemma_find_crlf_at(s, pos, end, pos + hl);
        // the size line holds exactly the canonical digits
        assert(skip_ws(s, pos, pos + hl) == pos);
        let b2 = rskip_ws(s, pos, pos + hl);
        assert(b2 == pos + hl) by {
            assert(!is_ws(s[pos + hl - 1]));
        }
        let digits = trim_range(s, pos, pos + hl);
        assert(digits =~= h);
        let size = c.len() as int;
        assert(all_hex(digits) && hex_val(digits) == size);
        assert(size > 0 && size <= usize::MAX);
        let dstart = pos + hl + 2;
        let dend = dstart + size;
        assert(dend + 2 <= end);
        // the data bytes and the closing CRLF
        assert forall|k: int| 0 <= k < size implies #[trigger] s[dstart + k] == c[k] by {
            assert(region[dstart + k - pos] == s[dstart + k]);
            assert(region[hl + 2 + k] == encode_chunk(c)[hl + 2 + k]);
            assert(encode_chunk(c)[hl + 2 + k] == c[k]);
        }
        assert forall|k: int| 0 <= k < size implies s.subrange(dstart, dend)[k] == c[k] by {
            assert(s.subrange(dstart, dend)[k] == s[dstart + k]);
        }
        assert(s.subrange(dstart, dend) =~= c);
        assert(encode_chunk(c)[hl + 2 + size] == 13 && encode_chunk(c)[hl + 2 + size + 1] == 10);
        assert(s[dend] == 13 && s[dend + 1] == 10) by {
            assert(region[hl + 2 + size] == s[dend]);
            assert(region[hl + 2 + size + 1] == s[dend + 1]);
        }
        // the tail is the encoding of the remaining chunks
        let cl = encode_chunk(c).len() as int;
        assert forall|k: int| 0 <= k < end - (dend + 2) implies #[trigger] s[dend + 2 + k]
            == encode_chunks(rest)[k] by {
            assert(region[cl + k] == s[pos + cl + k]);
            assert(region[cl + k] == (encode_chunk(c) + encode_chunks(rest))[cl + k]);
            assert((encode_chunk(c) + encode_chunks(rest))[cl + k] == encode_chunks(rest)[k]);
        }
        assert forall|k: int| 0 <= k < end - (dend + 2) implies s.subrange(dend + 2, end)[k]
            == encode_chunks(rest)[k] by {
            assert(s.subrange(dend + 2, end)[k] == s[dend + 2 + k]);
        }
        assert(s.subrange(dend + 2, end) =~= encode_chunks(rest));
        lemma_decode_encoded(s, dend + 2, end, acc + c, rest);
        assert(decode_chunked(s, pos, end, acc) == decode_chunked(s, dend + 2, end, acc + c));
        assert((acc + c) + concat_chunks(rest) =~= acc + concat_chunks(chunks));
    }
}

/// Chunk boundaries do not matter: decoding a body encoded from any
/// partition of a payload into non-empty chunks reconstructs exactly the
/// concatenated payload. This is how the body sections of a parsed message
/// relate to the logical payload a peer chunked, however it drew the chunk
/// boundaries.
pub proof fn lemma_chunked_round_trip(chunks: Seq<Seq<u8>>)
    requires
        forall|i: int| 0 <= i < chunks.len() ==> 0 < (#[trigger] chunks[i]).len() <= usize::MAX,
    ensures
        decode_chunked(
            encode_chunks(chunks),
            0,
            encode_chunks(chunks).len() as int,
            Seq::empty(),
        ) == ChunkStep::Done(concat_chunks(chunks)),
{
    let s = encode_chunks(chunks);
    assert(s.subrange(0, s.len() as int) =~= s);
    lemma_decode_encoded(s, 0, s.len() as int, Seq::empty(), chunks);
    assert(Seq::<u8>::empty() + concat_chunks(chunks) =~= concat_chunks(chunks));
}

} // verus!
