use vstd::prelude::*;

verus! {

/// The SHA-256 digest of a byte string.
///
/// The digest is computed outside the verified code; this function only
/// gives it a name, so that contracts can speak of "the digest of these bytes".
pub uninterp spec fn sha256_digest(data: Seq<u8>) -> Seq<u8>;

/// Hashes `data` with SHA-256 by calling `near_sdk::env::sha256`.
///
/// Trusted: the body is not verified. The contract claims only that the bytes
/// returned are the SHA-256 digest of the bytes passed in, a function of the
/// input alone.
#[verifier::external_body]
pub(crate) fn sha256(data: &[u8]) -> (digest: Vec<u8>)
    ensures
        digest@ == sha256_digest(data@),
{
    near_sdk::env::sha256(data)
}

} // verus!
