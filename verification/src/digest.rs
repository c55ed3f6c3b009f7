//! The content hash.

use vstd::prelude::*;

verus! {

/// What `blake3::hash` returns for a byte string, as thirty-two bytes.
pub uninterp spec fn blake3_digest(bytes: Seq<u8>) -> Seq<u8>;

/// `blake3::hash`: the BLAKE3 hash of `bytes`, a function of those bytes alone.
#[verifier::external_body]
pub(crate) fn blake3_hash(bytes: &[u8]) -> (digest: [u8; 32])
    ensures
        digest@ == blake3_digest(bytes@),
{
    *blake3::hash(bytes).as_bytes()
}

/// Two byte strings that differ and still have one hash.
pub open spec fn collide(a: Seq<u8>, b: Seq<u8>) -> bool {
    a != b && blake3_digest(a) == blake3_digest(b)
}

/// Two byte strings collide only if they are different and hash to the same id.
pub proof fn a_collision_is_of_different_bytes(a: Seq<u8>, b: Seq<u8>)
    ensures
        collide(a, b) <==> a != b && blake3_digest(a) == blake3_digest(b),
        !collide(a, a),
        collide(a, b) == collide(b, a),
{
}

} // verus!
