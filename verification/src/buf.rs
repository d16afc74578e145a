//! Trusted view of the byte buffers of the `bytes` crate.
//!
//! Response bodies are accumulated in a `bytes::BytesMut` and surfaced as an
//! immutable `bytes::Bytes`, exactly as the wire codec hands chunks over.
//! The contents of either buffer are modelled as a `Seq<u8>`.

use vstd::prelude::*;

verus! {

#[verifier::external_type_specification]
#[verifier::external_body]
pub struct ExBytes(bytes::Bytes);

#[verifier::external_type_specification]
#[verifier::external_body]
pub struct ExBytesMut(bytes::BytesMut);

/// The bytes held by an immutable buffer.
pub uninterp spec fn bytes_data(b: bytes::Bytes) -> Seq<u8>;

/// The bytes held by a mutable buffer.
pub uninterp spec fn bytes_mut_data(b: bytes::BytesMut) -> Seq<u8>;

/// Relies on bytes::BytesMut::new: a fresh buffer holds no bytes.
#[verifier::external_body]
pub(crate) fn bytes_mut_new() -> (r: bytes::BytesMut)
    ensures
        bytes_mut_data(r) == Seq::<u8>::empty(),
{
    bytes::BytesMut::new()
}

/// Relies on bytes::Bytes::len: the number of bytes held.
#[verifier::external_body]
pub(crate) fn bytes_len(b: &bytes::Bytes) -> (r: usize)
    ensures
        r == bytes_data(*b).len(),
{
    b.len()
}

/// Relies on bytes::BytesMut::extend_from_slice: appends the given bytes.
#[verifier::external_body]
pub(crate) fn bytes_mut_put(b: &mut bytes::BytesMut, chunk: &bytes::Bytes)
    ensures
        bytes_mut_data(*final(b)) == bytes_mut_data(*old(b)) + bytes_data(*chunk),
{
    b.extend_from_slice(chunk.as_ref())
}

/// Relies on bytes::BytesMut::freeze: the contents are kept, now immutable.
#[verifier::external_body]
pub(crate) fn bytes_mut_freeze(b: bytes::BytesMut) -> (r: bytes::Bytes)
    ensures
        bytes_data(r) == bytes_mut_data(b),
{
    b.freeze()
}

} // verus!
