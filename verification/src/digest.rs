use vstd::prelude::*;

use sha1::Digest;

verus! {

/// The 160-bit digest of a byte sequence, as its twenty raw bytes.
///
/// What the digest is would take pages to state; the name stands for the
/// function the hashing crate computes, which depends on the bytes alone.
pub uninterp spec fn sha1_of(s: Seq<u8>) -> Seq<u8>;

/// Relies on sha1::Sha1 through its one-shot digest interface: the result
/// is the twenty-byte digest of `data` and depends on `data` alone.
#[verifier::external_body]
pub(crate) fn sha1_digest(data: &[u8]) -> (r: Vec<u8>)
    ensures
        r@ == sha1_of(data@),
        r@.len() == 20,
{
    sha1::Sha1::digest(data).to_vec()
}

} // verus!
