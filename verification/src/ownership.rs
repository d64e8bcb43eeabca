use vstd::prelude::*;
use crate::codec::zeros;
use crate::hashorder::lemma_ascending_pairs;
use crate::hashorder::lemma_hash_lt_total;
use crate::hashorder::lemma_hash_lt_transitive;
use crate::hashorder::lemma_owner_among;
use crate::hashorder::owner_of;
use crate::indexlaws::owner_base;
use crate::indexshape::ascending;
use crate::indexshape::hash_lt;
use crate::layout::HASH_LEN;
use crate::split::entered;

verus! {

/// A sector whose key is not above a hash, while the keys of all later sectors are,
/// is the owner of the hash.
pub proof fn lemma_owner_unique(ht: Seq<([u8; 26], u64)>, hash: Seq<u8>, k: int)
    requires
        0 <= k < ht.len(),
        ht[0].0@ == zeros(HASH_LEN as nat),
        !hash_lt(hash, ht[k].0@),
        forall|j: int| k < j < ht.len() ==> hash_lt(hash, #[trigger] ht[j].0@),
    ensures
        owner_of(ht, hash) == k,
{
    lemma_owner_among(ht, hash, ht.len() as int);
    let owner = owner_of(ht, hash);
    if owner < k {
        assert(hash_lt(hash, ht[k].0@));
    }
    if k < owner {
        assert(hash_lt(hash, ht[owner].0@));
    }
}

/// Who owns a hash after a sector with a new key was entered into the directory: the
/// new sector, where the hash belonged to the owner of the new key and is not below
/// the new key; else the sector that owned it before.
#[verifier::spinoff_prover]
pub proof fn lemma_owner_entered(ht: Seq<([u8; 26], u64)>, key: [u8; 26], base: u64, hash: Seq<u8>)
    requires
        ht.len() > 0,
        ht[0].0@ == zeros(HASH_LEN as nat),
        ascending(ht),
        ht[owner_of(ht, key@)].0@ != key@,
    ensures
        owner_base(entered(ht, key, base), hash) == if owner_of(ht, hash) == owner_of(ht, key@)
            && !hash_lt(hash, key@) {
            base
        } else {
            owner_base(ht, hash)
        },
{
    let after = entered(ht, key, base);
    let i = owner_of(ht, key@);
    let k = owner_of(ht, hash);
    lemma_owner_among(ht, key@, ht.len() as int);
    lemma_owner_among(ht, hash, ht.len() as int);
    assert(after == ht.insert(i + 1, (key, base)));
    assert(after.len() == ht.len() + 1);
    assert(after[0] == ht[0]);
    lemma_hash_lt_total(ht[i].0@, key@);
    assert(hash_lt(ht[i].0@, key@));
    if k < i {
        assert(hash_lt(hash, ht[k + 1].0@));
        if k + 1 < i {
            lemma_ascending_pairs(ht, k + 1, i);
            lemma_hash_lt_transitive(hash, ht[k + 1].0@, ht[i].0@);
        }
        lemma_hash_lt_transitive(hash, ht[i].0@, key@);
        assert forall|j: int| k < j < after.len() implies hash_lt(hash, #[trigger] after[j].0@) by {
            if j <= i {
                assert(after[j] == ht[j]);
            } else if j == i + 1 {
            } else {
                assert(after[j] == ht[j - 1]);
            }
        }
        assert(after[k] == ht[k]);
        lemma_owner_unique(after, hash, k);
    } else if k == i {
        if hash_lt(hash, key@) {
            assert forall|j: int| i < j < after.len() implies hash_lt(hash, #[trigger] after[j].0@) by {
                if j > i + 1 {
                    assert(after[j] == ht[j - 1]);
                }
            }
            assert(after[i] == ht[i]);
            lemma_owner_unique(after, hash, i);
        } else {
            assert forall|j: int| i + 1 < j < after.len() implies hash_lt(
                hash,
                #[trigger] after[j].0@,
            ) by {
                assert(after[j] == ht[j - 1]);
            }
            assert(after[i + 1] == (key, base));
            lemma_owner_unique(after, hash, i + 1);
        }
    } else {
        assert forall|j: int| k + 1 < j < after.len() implies hash_lt(hash, #[trigger] after[j].0@) by {
            assert(after[j] == ht[j - 1]);
        }
        assert(after[k + 1] == ht[k]);
        lemma_owner_unique(after, hash, k + 1);
    }
}

} // verus!
