//! Trusted view of the byte buffers this crate stores its wire data in.
//!
//! The receive buffer is a `bytes::BytesMut` and section payloads are handed
//! out as `bytes::Bytes`; both are opaque to the verifier, so their contents
//! are named by uninterpreted view functions and each operation the parser
//! needs is wrapped with a contract matching what the `bytes` crate does.

use vstd::prelude::*;

verus! {

#[verifier::external_type_specification]
#[verifier::external_body]
pub struct ExBytesMut(bytes::BytesMut);

#[verifier::external_type_specification]
#[verifier::external_body]
pub struct ExBytes(bytes::Bytes);

/// The bytes currently held by a `BytesMut`, front to back.
pub uninterp spec fn buf_view(b: bytes::BytesMut) -> Seq<u8>;

/// The bytes held by a `Bytes` value, front to back.
pub uninterp spec fn bytes_view(b: bytes::Bytes) -> Seq<u8>;

/// Relies on `BytesMut::with_capacity`: the new buffer is empty.
#[verifier::external_body]
pub(crate) fn buf_with_capacity(capacity: usize) -> (r: bytes::BytesMut)
    ensures
        buf_view(r) == Seq::<u8>::empty(),
{
    bytes::BytesMut::with_capacity(capacity)
}

/// Relies on `BytesMut::extend_from_slice`: appends the slice at the back.
#[verifier::external_body]
pub(crate) fn buf_extend(b: &mut bytes::BytesMut, data: &[u8])
    ensures
        buf_view(*final(b)) == buf_view(*old(b)) + data@,
{
    b.extend_from_slice(data);
}

/// Relies on `Buf::advance` for `BytesMut`: drops `n` bytes from the front.
#[verifier::external_body]
pub(crate) fn buf_advance(b: &mut bytes::BytesMut, n: usize)
    requires
        n <= buf_view(*old(b)).len(),
    ensures
        buf_view(*final(b)) == buf_view(*old(b)).skip(n as int),
{
    bytes::Buf::advance(b, n);
}

/// Relies on `BytesMut`'s `Deref` to `[u8]`: a read-only view of the whole
/// buffer.
#[verifier::external_body]
pub(crate) fn buf_as_slice(b: &bytes::BytesMut) -> (r: &[u8])
    ensures
        r@ == buf_view(*b),
{
    &b[..]
}

/// Relies on `Bytes`'s `From<Vec<u8>>`: the result holds exactly the bytes of
/// the vector.
#[verifier::external_body]
pub(crate) fn bytes_of_vec(v: Vec<u8>) -> (r: bytes::Bytes)
    ensures
        bytes_view(r) == v@,
{
    bytes::Bytes::from(v)
}

} // verus!
