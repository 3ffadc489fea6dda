//! SHA-256 digests.

use sha2::Digest;
use vstd::prelude::*;

verus! {

/// A SHA-256 digest.
pub type NodeHash = [u8; 32];

/// The length of a digest in bytes.
pub const HASH_LENGTH: usize = 32;

/// The root hash of an empty tree: all zeros.
pub const NULL_HASH: NodeHash = [
    0, 0, 0, 0, 0, 0, 0, 0, 0, 0, 0, 0, 0, 0, 0, 0, 0, 0, 0, 0, 0, 0, 0, 0, 0, 0, 0, 0, 0, 0, 0, 0,
];

/// The SHA-256 digest of a byte string, as a value.
pub uninterp spec fn sha256_of(data: Seq<u8>) -> [u8; 32];

/// Calls `sha2::Sha256::digest`, which hashes the whole of `data` in one go.
/// The contract claims that the digest depends on the bytes of `data` alone.
#[verifier::external_body]
pub(crate) fn sha256(data: &[u8]) -> (digest: NodeHash)
    ensures
        digest == sha256_of(data@),
{
    sha2::Sha256::digest(data).into()
}

/// Whether two digests hold the same bytes.
pub fn same_hash(a: &NodeHash, b: &NodeHash) -> (r: bool)
    ensures
        r == (*a == *b),
{
    let mut i: usize = 0;
    while i < HASH_LENGTH
        invariant
            i <= HASH_LENGTH,
            HASH_LENGTH == 32,
            forall|j: int| 0 <= j < i ==> a[j] == b[j],
        decreases HASH_LENGTH - i,
    {
        if a[i] != b[i] {
            return false;
        }
        i = i + 1;
    }
    assert(a@ =~= b@);
    assert(*a =~= *b);
    true
}

} // verus!
