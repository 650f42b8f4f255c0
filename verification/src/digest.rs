use crypto::digest::Digest;
use crypto::sha1::Sha1;
use vstd::prelude::*;

verus! {

/// The SHA-1 digest of a byte sequence.
pub uninterp spec fn sha1_digest(data: Seq<u8>) -> [u8; 20];

/// Calls `crypto::sha1::Sha1` (`new`, `input`, `result`) on `data`. The result is
/// the 20-byte SHA-1 digest of `data`, a function of the input bytes alone.
#[verifier::external_body]
pub(crate) fn sha1(data: &[u8]) -> (out: Vec<u8>)
    ensures
        out@ == sha1_digest(data@)@,
{
    let mut hasher = Sha1::new();
    hasher.input(data);
    let mut out = vec![0u8; 20];
    hasher.result(&mut out);
    out
}

} // verus!
