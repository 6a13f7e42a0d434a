use vstd::prelude::*;

verus! {

#[verifier::external_type_specification]
#[verifier::external_body]
pub struct ExBytesMut(bytes::BytesMut);

#[verifier::external_type_specification]
#[verifier::external_body]
pub struct ExBytes(bytes::Bytes);

/// The bytes a `bytes::BytesMut` buffer holds.
pub uninterp spec fn bytes_mut_data(b: bytes::BytesMut) -> Seq<u8>;

/// The bytes a `bytes::Bytes` buffer holds.
pub uninterp spec fn bytes_data(b: bytes::Bytes) -> Seq<u8>;

/// Relies on `BytesMut::from(&[u8])`: the slice is copied into a fresh
/// buffer holding exactly those bytes.
#[verifier::external_body]
pub(crate) fn bytes_mut_from_slice(src: &[u8]) -> (r: bytes::BytesMut)
    ensures
        bytes_mut_data(r) == src@,
{
    bytes::BytesMut::from(src)
}

/// Relies on `Bytes::from(Vec<u8>)`: the vector's contents become the
/// buffer's contents, unchanged.
#[verifier::external_body]
pub(crate) fn bytes_from_vec(src: Vec<u8>) -> (r: bytes::Bytes)
    ensures
        bytes_data(r) == src@,
{
    bytes::Bytes::from(src)
}

} // verus!
