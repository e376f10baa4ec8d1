//! SHA-1 digests for piece verification and the info hash.

use sha1::Digest;
use vstd::prelude::*;

verus! {

/// The SHA-1 digest of a byte sequence; it depends on the bytes alone.
pub uninterp spec fn sha1_of(data: Seq<u8>) -> Seq<u8>;

/// Relies on sha1::Sha1 (through the Digest trait): the 20-byte SHA-1 digest
/// of the input, a function of the input alone.
#[verifier::external_body]
pub(crate) fn sha1_digest(data: &Vec<u8>) -> (r: Vec<u8>)
    ensures
        r@ == sha1_of(data@),
        r@.len() == 20,
{
    let mut hasher = sha1::Sha1::new();
    hasher.update(data.as_slice());
    hasher.finalize().to_vec()
}

/// Whether the bytes of a piece hash to its expected 20-byte digest.
pub fn check_piece_hash(piece_bytes: &Vec<u8>, expected: &Vec<u8>) -> (r: bool)
    ensures
        r == (sha1_of(piece_bytes@) == expected@),
{
    let digest = sha1_digest(piece_bytes);
    crate::util::bytes_eq(&digest, expected)
}

} // verus!
