//! Content addressing: the digest that names an operation record.

use blake2::Digest;
use vstd::prelude::*;

verus! {

/// The digest of a byte string. What it is on given bytes is left to
/// the hash function; it depends on the bytes alone.
pub uninterp spec fn digest_of(bytes: Seq<u8>) -> Seq<u8>;

/// Relies on blake2's `Blake2b512`: a 64-byte digest computed from the
/// input bytes alone, the same on every machine and in every process.
#[verifier::external_body]
pub(crate) fn digest_bytes(bytes: &Vec<u8>) -> (r: Vec<u8>)
    ensures
        r@ == digest_of(bytes@),
        r@.len() == 64,
{
    blake2::Blake2b512::digest(bytes.as_slice()).to_vec()
}

} // verus!
