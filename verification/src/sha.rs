//! The content hash that addresses every stored object and seals the index
//! file. The digest itself is computed by an outside implementation; the
//! library names its result and builds every contract on that name.

use vstd::prelude::*;

verus! {

/// The SHA-1 digest, as 20 raw bytes, of a byte sequence. The digest is a
/// function of the input alone; its definition is not restated here.
pub uninterp spec fn sha1_bytes(data: Seq<u8>) -> Seq<u8>;

/// Relies on `crypto::sha1::Sha1` through `crypto::digest::Digest`: the
/// digest depends on the input bytes alone and is always 20 bytes long.
#[verifier::external_body]
pub(crate) fn sha1_digest(data: &[u8]) -> (r: Vec<u8>)
    ensures
        r@ == sha1_bytes(data@),
        r@.len() == 20,
{
    let mut hasher = crypto::sha1::Sha1::new();
    crypto::digest::Digest::input(&mut hasher, data);
    let mut out = [0u8; 20];
    crypto::digest::Digest::result(&mut hasher, &mut out);
    out.to_vec()
}

} // verus!
