//! The `bytes::Bytes` buffer as seen by verified code.

use vstd::prelude::*;

verus! {

/// `bytes::Bytes`, carried through verified code as an opaque value.
#[verifier::external_type_specification]
#[verifier::external_body]
pub struct ExBytes(bytes::Bytes);

/// The byte sequence that a `bytes::Bytes` buffer holds.
pub uninterp spec fn bytes_content(b: bytes::Bytes) -> Seq<u8>;

/// Borrows the contents of a buffer through `Bytes`'s `Deref<Target = [u8]>`
/// (`bytes::Bytes::as_slice`); the slice is exactly the bytes the buffer holds.
#[verifier::external_body]
pub(crate) fn bytes_as_slice(b: &bytes::Bytes) -> (s: &[u8])
    ensures
        s@ == bytes_content(*b),
{
    &b[..]
}

/// Builds a buffer with `impl From<Vec<u8>> for bytes::Bytes`, which takes over
/// the vector's storage: the buffer holds exactly the vector's bytes.
#[verifier::external_body]
pub(crate) fn bytes_from_vec(v: Vec<u8>) -> (b: bytes::Bytes)
    ensures
        bytes_content(b) == v@,
{
    bytes::Bytes::from(v)
}

/// `bytes::Bytes::is_empty`: whether the buffer's length is zero.
#[verifier::external_body]
pub(crate) fn bytes_is_empty(b: &bytes::Bytes) -> (r: bool)
    ensures
        r == (bytes_content(*b).len() == 0),
{
    b.is_empty()
}

} // verus!
