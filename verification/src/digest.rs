use vstd::prelude::*;
use crate::layout::HASH_LEN;

verus! {

/// The 32-byte BLAKE3 digest of `data`.
pub uninterp spec fn blake3_digest(data: Seq<u8>) -> Seq<u8>;

/// The truncated hash under which a key is filed: the first 26 bytes of the BLAKE3
/// digest of the salt followed by the key.
pub open spec fn key_hash(salt: Seq<u8>, key: Seq<u8>) -> Seq<u8> {
    blake3_digest(salt + key).subrange(0, HASH_LEN as int)
}

/// Computes the BLAKE3 digest of `data`.
///
/// Rests on `blake3::hash`, the default hash function of the `blake3` crate, whose
/// 32-byte result depends on the input bytes alone.
#[verifier::external_body]
fn blake3_hash(data: &Vec<u8>) -> (digest: [u8; 32])
    ensures
        digest@ == blake3_digest(data@),
{
    blake3::hash(data.as_slice()).into()
}

/// The first 26 bytes of a digest.
pub fn truncate_digest(digest: &[u8; 32]) -> (hash: [u8; 26])
    ensures
        hash@ == digest@.subrange(0, HASH_LEN as int),
{
    let mut hash = [0u8; 26];
    let mut i: usize = 0;
    while i < 26
        invariant
            0 <= i <= 26,
            forall|j: int| 0 <= j < i ==> hash@[j] == digest@[j],
        decreases 26 - i,
    {
        hash[i] = digest[i];
        i += 1;
    }
    assert(hash@ =~= digest@.subrange(0, HASH_LEN as int));
    hash
}

/// Computes the truncated hash of `key` under `salt`.
pub fn get_hash(salt: &[u8; 32], key: &Vec<u8>) -> (hash: [u8; 26])
    ensures
        hash@ == key_hash(salt@, key@),
{
    let mut input: Vec<u8> = Vec::new();
    input.extend_from_slice(salt.as_slice());
    input.extend_from_slice(key.as_slice());
    assert(input@ =~= salt@ + key@);
    let digest = blake3_hash(&input);
    truncate_digest(&digest)
}

} // verus!
