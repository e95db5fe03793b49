//! Byte strings, as the derivations carry them.
use crate::path::{copy_bytes, UnixPath};
use bytes::Bytes;
use vstd::prelude::*;
use vstd::utf8::encode_utf8;

verus! {

/// The cheaply cloneable byte string of the `bytes` crate.
#[verifier::external_type_specification]
#[verifier::external_body]
pub struct ExBytes(bytes::Bytes);

/// The bytes that a `Bytes` holds.
pub uninterp spec fn contents(b: Bytes) -> Seq<u8>;

/// The bytes that each of several `Bytes` holds.
pub open spec fn all_contents(v: Seq<Bytes>) -> Seq<Seq<u8>> {
    v.map_values(|b: Bytes| contents(b))
}

/// `Bytes::from(Vec<u8>)`: the vector's bytes.
#[verifier::external_body]
pub(crate) fn bytes_from_vec(v: Vec<u8>) -> (b: Bytes)
    ensures
        contents(b) == v@,
{
    Bytes::from(v)
}

/// `Bytes::from(String)`: the UTF-8 encoding of the text.
#[verifier::external_body]
pub(crate) fn bytes_from_string(s: String) -> (b: Bytes)
    ensures
        contents(b) == encode_utf8(s@),
{
    Bytes::from(s)
}

/// `Bytes::clone`: a second handle on the same bytes.
#[verifier::external_body]
pub(crate) fn bytes_clone(b: &Bytes) -> (c: Bytes)
    ensures
        contents(c) == contents(*b),
{
    b.clone()
}

/// `Bytes::as_ref`: the bytes as a slice.
#[verifier::external_body]
pub(crate) fn bytes_as_slice(b: &Bytes) -> (s: &[u8])
    ensures
        s@ == contents(*b),
{
    b.as_ref()
}

/// Byte string of a text.
pub fn text_bytes(s: &str) -> (b: Bytes)
    ensures
        contents(b) == encode_utf8(s@),
{
    bytes_from_string(s.to_owned())
}

/// What can be copied into a byte string.
pub trait CloneBytes {
    /// The bytes that are copied.
    spec fn bytes_to_clone(&self) -> Seq<u8>;

    fn clone_bytes(&self) -> (b: Bytes)
        ensures
            contents(b) == self.bytes_to_clone(),
    ;
}

/// What can be turned into a byte string.
pub trait IntoBytes: Sized {
    /// The bytes that it turns into.
    spec fn bytes_to_take(&self) -> Seq<u8>;

    fn into_bytes(self) -> (b: Bytes)
        ensures
            contents(b) == self.bytes_to_take(),
    ;
}

impl CloneBytes for UnixPath {
    open spec fn bytes_to_clone(&self) -> Seq<u8> {
        self@
    }

    fn clone_bytes(&self) -> (b: Bytes) {
        bytes_from_vec(copy_bytes(self.bytes.as_slice()))
    }
}

impl IntoBytes for UnixPath {
    open spec fn bytes_to_take(&self) -> Seq<u8> {
        self@
    }

    fn into_bytes(self) -> (b: Bytes) {
        bytes_from_vec(self.bytes)
    }
}

} // verus!
