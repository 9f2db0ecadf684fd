//! The digest primitive: SHA-256, as computed by the `sha2` crate.

use sha2::Digest;
use vstd::prelude::*;

verus! {

/// The SHA-256 digest of a byte string: what `sha2::Sha256::digest` returns
/// for it. The function is named here, not defined.
pub uninterp spec fn sha256(data: Seq<u8>) -> Seq<u8>;

/// Number of bytes in a digest.
pub const DIGEST_LEN: usize = 32;

/// Longest input, in bytes, that can be hashed: SHA-256 counts the bits of its
/// input in 64 bits.
pub const MAX_INPUT_LEN: u64 = 0x1fff_ffff_ffff_ffff;

/// Whether `data` is short enough to be hashed.
pub open spec fn hashable(data: Seq<u8>) -> bool {
    data.len() <= MAX_INPUT_LEN
}

/// Hashes `data` with `sha2::Sha256::digest` and copies the output into a
/// vector.
///
/// Trusted, not proved: the result depends on the bytes of `data` alone, so
/// that it has a name, and it is 32 bytes long. Inputs of `2^61` bytes or
/// more are left out: the hasher counts the bits of its input in 64 bits.
#[verifier::external_body]
pub(crate) fn sha256_digest(data: &[u8]) -> (digest: Vec<u8>)
    requires
        hashable(data@),
    ensures
        digest@ == sha256(data@),
        digest@.len() == DIGEST_LEN,
{
    sha2::Sha256::digest(data).to_vec()
}

/// Whether `data` is short enough to be hashed, decided at run time.
pub(crate) fn fits_hash_input(len: usize) -> (fits: bool)
    ensures
        fits == (len <= MAX_INPUT_LEN),
{
    len as u64 <= MAX_INPUT_LEN
}

/// The digest of `first` followed by `second`.
pub(crate) fn hash_pair(first: &Vec<u8>, second: &Vec<u8>) -> (digest: Vec<u8>)
    requires
        hashable(first@ + second@),
    ensures
        digest@ == sha256(first@ + second@),
        digest@.len() == DIGEST_LEN,
{
    let mut joined: Vec<u8> = Vec::new();
    let mut i: usize = 0;
    while i < first.len()
        invariant
            i <= first.len(),
            joined@ == first@.take(i as int),
        decreases first.len() - i,
    {
        joined.push(first[i]);
        i += 1;
    }
    let mut j: usize = 0;
    while j < second.len()
        invariant
            j <= second.len(),
            joined@ == first@ + second@.take(j as int),
        decreases second.len() - j,
    {
        joined.push(second[j]);
        j += 1;
    }
    assert(joined@ == first@ + second@);
    sha256_digest(joined.as_slice())
}

/// The digest of `first` followed by `second`, or `None` when the two
/// together are too long to hash.
pub(crate) fn try_hash_pair(first: &Vec<u8>, second: &Vec<u8>) -> (digest: Option<Vec<u8>>)
    ensures
        digest is Some == hashable(first@ + second@),
        digest matches Some(d) ==> d@ == sha256(first@ + second@) && d@.len() == DIGEST_LEN,
{
    if fits_hash_input(first.len()) && second.len() as u64 <= MAX_INPUT_LEN - first.len() as u64 {
        Some(hash_pair(first, second))
    } else {
        None
    }
}

} // verus!
