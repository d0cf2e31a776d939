//! The digest primitive behind the tree: SHA3-256, reached through the
//! `sha3` crate and named, not written out, at the specification level.

use sha3::{Digest, Sha3_256};
use vstd::prelude::*;

verus! {

/// A digest: the fixed 32-byte output of the hash function.
pub type HashedData = [u8; 32];

/// The SHA3-256 digest of a byte sequence. The algorithm itself is not
/// written out: the result is a fixed function of the input bytes alone,
/// and the trusted wrappers below state their results with this name.
pub uninterp spec fn sha3_of(bytes: Seq<u8>) -> Seq<u8>;

/// The bytes of a sequence of digests, concatenated in order.
pub open spec fn concat_digests(digests: Seq<HashedData>) -> Seq<u8>
    decreases digests.len(),
{
    if digests.len() == 0 {
        Seq::empty()
    } else {
        digests[0]@ + concat_digests(digests.drop_first())
    }
}

/// The digest that commits to an ordered pair of child digests.
pub open spec fn pair_hash(left: Seq<u8>, right: Seq<u8>) -> Seq<u8> {
    sha3_of(left + right)
}

/// This function generates the joint hash of two (or more) given hashes.
///
/// Relies on `sha3::Sha3_256` through the `Digest` trait (`new`, `update`,
/// `finalize`): feeding byte chunks in order and finalizing yields the
/// SHA3-256 digest of their concatenation, a function of those bytes alone.
#[verifier::external_body]
pub fn hash(leaves: &[HashedData]) -> (r: HashedData)
    ensures
        r@ == sha3_of(concat_digests(leaves@)),
{
    let mut hasher = Sha3_256::new();
    for leaf in leaves {
        hasher.update(leaf);
    }
    hasher.finalize().into()
}

/// Relies on `sha3::Sha3_256::digest`: the SHA3-256 digest of the given
/// bytes, a function of those bytes alone.
#[verifier::external_body]
pub(crate) fn hash_block(data: &Vec<u8>) -> (r: HashedData)
    ensures
        r@ == sha3_of(data@),
{
    Sha3_256::digest(data).into()
}

/// Compares two digests byte for byte.
pub fn digests_equal(a: &HashedData, b: &HashedData) -> (r: bool)
    ensures
        r == (a@ == b@),
{
    let mut i: usize = 0;
    while i < 32
        invariant
            i <= 32,
            forall|j: int| 0 <= j < i ==> a@[j] == b@[j],
        decreases 32 - i,
    {
        if a[i] != b[i] {
            return false;
        }
        i += 1;
    }
    proof {
        assert(a@ =~= b@);
    }
    true
}

} // verus!
