use vstd::prelude::*;

verus! {

/// The SHA-512 digest of a byte sequence, as 64 bytes.
pub uninterp spec fn sha512_of(data: Seq<u8>) -> Seq<u8>;

/// Relies on ring::digest::digest with the ring::digest::SHA512 algorithm:
/// the digest is a function of the input bytes alone, and its output holds
/// ring::digest::SHA512_OUTPUT_LEN = 64 bytes.
#[verifier::external_body]
pub fn sha512(data: &[u8]) -> (r: Vec<u8>)
    ensures
        r@ == sha512_of(data@),
        r@.len() == 64,
{
    ring::digest::digest(&ring::digest::SHA512, data).as_ref().to_vec()
}

} // verus!
