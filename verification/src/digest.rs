//! Content digests.
use sha2::Digest;
use vstd::prelude::*;

verus! {

/// The SHA-256 digest of `data`.
pub uninterp spec fn sha256_of(data: Seq<u8>) -> Seq<u8>;

/// Calls `digest`, the one-shot function of the `Digest` trait of the
/// `sha2` crate, for `Sha256` on `data`, and hands back its 32 bytes. The
/// contract only names what comes back: the digest is a function of the
/// bytes that went in, and nothing else is claimed of it.
#[verifier::external_body]
pub(crate) fn sha256(data: &[u8]) -> (digest: [u8; 32])
    ensures
        digest@ == sha256_of(data@),
{
    sha2::Sha256::digest(data).into()
}

} // verus!
