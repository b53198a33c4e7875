//! Conversion from parsed wire bytes to owned strings.
//!
//! The parser produces text fields (request URI, response reason, header
//! values) as byte ranges; this module turns them into `String`s, with the
//! conversion specified through vstd's model of UTF-8.

use vstd::prelude::*;
use vstd::utf8::{decode_utf8, valid_utf8, pop_first_scalar};

verus! {

/// Relies on `String::from_utf8`: it succeeds exactly on valid UTF-8 input
/// and returns the string holding the decoded characters.
#[verifier::external_body]
pub(crate) fn vec_to_string(v: Vec<u8>) -> (r: Option<String>)
    ensures
        r is Some <==> valid_utf8(v@),
        r is Some ==> r.unwrap()@ == decode_utf8(v@),
{
    String::from_utf8(v).ok()
}

/// Every sequence of bytes below `0x80` is valid UTF-8 and decodes to the
/// characters with the same code values.
pub proof fn lemma_ascii_decode(b: Seq<u8>)
    requires
        forall|i: int| 0 <= i < b.len() ==> b[i] < 0x80,
    ensures
        valid_utf8(b),
        decode_utf8(b).len() == b.len(),
        forall|i: int| 0 <= i < b.len() ==> decode_utf8(b)[i] == b[i] as char,
    decreases b.len(),
{
    if b.len() != 0 {
        assert(vstd::utf8::is_leading_byte_width_1(b[0]));
        assert(vstd::utf8::valid_first_scalar(b));
        assert(vstd::utf8::length_of_first_scalar(b) == 1);
        let rest = pop_first_scalar(b);
        assert(rest =~= b.skip(1));
        lemma_ascii_decode(rest);
        assert(vstd::utf8::decode_first_scalar(b) == (b[0] & 0x7f) as u32);
        let b0 = b[0];
        assert(b0 & 0x7f == b0) by (bit_vector)
            requires
                b0 < 0x80,
        ;
        assert((b[0] as u32) as char == b[0] as char);
        assert(decode_utf8(b) == seq![b[0] as char] + decode_utf8(rest));
        assert forall|i: int| 0 <= i < b.len() implies decode_utf8(b)[i] == b[i] as char by {
            if i > 0 {
                assert(decode_utf8(b)[i] == decode_utf8(rest)[i - 1]);
                assert(rest[i - 1] == b[i]);
            }
        }
    }
}

} // verus!
