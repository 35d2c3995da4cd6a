//! The content digest under which every object is addressed.

use vstd::prelude::*;

verus! {

/// The SHA-1 digest of a byte string.  The digest is a pure function of
/// the input bytes alone; its 20 output bytes are not stated here beyond
/// that, and every claim about concrete digest values lives in the
/// executable tests.
pub uninterp spec fn sha1_of(s: Seq<u8>) -> Seq<u8>;

/// The digest as the rest of the library speaks of it: always exactly 20
/// bytes.  `sha1_digest` shows that the digest of every hashed input has
/// that length, so on anything actually hashed this is `sha1_of` itself;
/// the fallback arm only keeps the length fixed on unhashed inputs.
pub open spec fn digest_of(s: Seq<u8>) -> Seq<u8> {
    if sha1_of(s).len() == 20 {
        sha1_of(s)
    } else {
        Seq::new(20, |i: int| 0u8)
    }
}

/// A digest is always 20 bytes wide.
pub proof fn lemma_digest_of_len(s: Seq<u8>)
    ensures
        digest_of(s).len() == 20,
{
}

/// Relies on the `sha1` crate's `Sha1` hasher (through the `Digest`
/// trait): hashing is deterministic in the input bytes and always yields
/// a 20-byte digest.
#[verifier::external_body]
pub fn sha1_digest(b: &[u8]) -> (r: Vec<u8>)
    ensures
        r@ == sha1_of(b@),
        r@.len() == 20,
{
    let mut h = <sha1::Sha1 as sha1::Digest>::new();
    sha1::Digest::update(&mut h, b);
    sha1::Digest::finalize(h).to_vec()
}

} // verus!
