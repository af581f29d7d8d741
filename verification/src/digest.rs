//! The canonical-hash primitive: SHA-1 over the uncompressed envelope.

use vstd::prelude::*;

verus! {

/// The SHA-1 digest of a byte string. The algorithm itself is supplied by
/// an outside crate; this name stands for its (deterministic) result.
pub uninterp spec fn sha1_of(data: Seq<u8>) -> Seq<u8>;

/// Relies on `sha1::Sha1` (through the `Digest` trait): the one-shot digest
/// of the input, always twenty bytes wide.
#[verifier::external_body]
pub(crate) fn sha1_digest(data: &[u8]) -> (r: Vec<u8>)
    ensures
        r@ == sha1_of(data@),
        r@.len() == 20,
{
    let mut hasher: sha1::Sha1 = sha1::Digest::new();
    sha1::Digest::update(&mut hasher, data);
    sha1::Digest::finalize(hasher).to_vec()
}

} // verus!
