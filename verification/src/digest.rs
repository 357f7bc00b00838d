//! The SHA-1 digest, computed by the `sha1` crate.

use sha1::{Digest, Sha1};
use vstd::prelude::*;

verus! {

/// The SHA-1 digest of `data`, as the `sha1` crate computes it.
pub uninterp spec fn sha1_digest(data: Seq<u8>) -> Seq<u8>;

/// Computes the SHA-1 digest of `data`.
///
/// Calls `Sha1::digest` of the `sha1` crate. Taken on trust: the 20 bytes
/// that come back are a function of the bytes handed in, and of nothing
/// else.
#[verifier::external_body]
pub(crate) fn sha1(data: &[u8]) -> (digest: [u8; 20])
    ensures
        digest@ == sha1_digest(data@),
{
    Sha1::digest(data).into()
}

} // verus!
