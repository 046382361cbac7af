//! The byte buffers of the `bytes` crate, as this library sees them.
use bytes::{Buf, Bytes, BytesMut};
use vstd::prelude::*;

verus! {

#[verifier::external_type_specification]
#[verifier::external_body]
pub struct ExBytesMut(BytesMut);

#[verifier::external_type_specification]
#[verifier::external_body]
pub struct ExBytes(Bytes);

/// The bytes that a growable buffer holds, front first.
pub uninterp spec fn buffer_bytes(b: BytesMut) -> Seq<u8>;

/// The bytes that a shared immutable buffer holds.
pub uninterp spec fn shared_bytes(b: Bytes) -> Seq<u8>;

/// Relies on `<BytesMut as AsRef<[u8]>>::as_ref`: the slice of all bytes the buffer holds.
#[verifier::external_body]
pub(crate) fn buffer_slice(b: &BytesMut) -> (r: &[u8])
    ensures
        r@ == buffer_bytes(*b),
{
    b.as_ref()
}

/// Relies on `<BytesMut as Buf>::advance`: drops the first `n` bytes. It panics
/// when `n` is past the end, which the precondition rules out.
#[verifier::external_body]
pub(crate) fn buffer_advance(b: &mut BytesMut, n: usize)
    requires
        n <= buffer_bytes(*old(b)).len(),
    ensures
        buffer_bytes(*final(b)) == buffer_bytes(*old(b)).skip(n as int),
{
    b.advance(n)
}

/// Relies on `<Bytes as From<Vec<u8>>>::from`: a shared buffer over the vector's bytes.
#[verifier::external_body]
pub(crate) fn shared_from_vec(v: Vec<u8>) -> (r: Bytes)
    ensures
        shared_bytes(r) == v@,
{
    Bytes::from(v)
}

/// Relies on `<Bytes as AsRef<[u8]>>::as_ref`: the slice of the bytes held.
#[verifier::external_body]
pub(crate) fn shared_slice(b: &Bytes) -> (r: &[u8])
    ensures
        r@ == shared_bytes(*b),
{
    b.as_ref()
}

/// Relies on `<Bytes as Clone>::clone`: a second handle on the same bytes.
pub assume_specification[ <Bytes as Clone>::clone ](b: &Bytes) -> (r: Bytes)
    ensures
        shared_bytes(r) == shared_bytes(*b),
;

} // verus!
