use vstd::prelude::*;
use crate::codec::zeros;
use crate::indexshape::ascending;
use crate::indexshape::first_gap;
use crate::indexshape::hash_lt;
use crate::indexshape::owns;
use crate::layout::HASH_LEN;

verus! {

/// No hash comes before itself.
pub proof fn lemma_hash_lt_irreflexive(a: Seq<u8>)
    ensures
        !hash_lt(a, a),
{
}

/// Nothing comes before the zero hash.
pub proof fn lemma_zero_is_least(a: Seq<u8>)
    ensures
        !hash_lt(a, zeros(HASH_LEN as nat)),
{
}

/// Two hashes that agree up to a position agree on every shorter prefix.
proof fn lemma_prefix_agrees(a: Seq<u8>, b: Seq<u8>, i: int, j: int)
    requires
        0 <= j <= i <= a.len(),
        i <= b.len(),
        a.subrange(0, i) == b.subrange(0, i),
    ensures
        a.subrange(0, j) == b.subrange(0, j),
        j < i ==> a[j] == b[j],
{
    assert(a.subrange(0, j) =~= a.subrange(0, i).subrange(0, j));
    assert(b.subrange(0, j) =~= b.subrange(0, i).subrange(0, j));
    if j < i {
        assert(a[j] == a.subrange(0, i)[j]);
        assert(b[j] == b.subrange(0, i)[j]);
    }
}

/// The order of hashes is transitive.
pub proof fn lemma_hash_lt_transitive(a: Seq<u8>, b: Seq<u8>, c: Seq<u8>)
    requires
        hash_lt(a, b),
        hash_lt(b, c),
    ensures
        hash_lt(a, c),
{
    let i = choose|i: int| first_gap(a, b, i);
    let j = choose|j: int| first_gap(b, c, j);
    if i <= j {
        lemma_prefix_agrees(b, c, j, i);
        assert(a.subrange(0, i) == c.subrange(0, i));
        assert(first_gap(a, c, i));
    } else {
        lemma_prefix_agrees(a, b, i, j);
        assert(first_gap(a, c, j));
    }
}

/// Of two different hashes one comes before the other, and not both.
pub proof fn lemma_hash_lt_total(a: Seq<u8>, b: Seq<u8>)
    requires
        a.len() == HASH_LEN,
        b.len() == HASH_LEN,
    ensures
        a == b || hash_lt(a, b) || hash_lt(b, a),
        !(hash_lt(a, b) && hash_lt(b, a)),
        hash_lt(a, b) ==> a != b,
{
    if a != b {
        assert(a.subrange(0, HASH_LEN as int) =~= a);
        assert(b.subrange(0, HASH_LEN as int) =~= b);
        lemma_first_difference(a, b, HASH_LEN as int);
    }
    if hash_lt(a, b) && hash_lt(b, a) {
        lemma_hash_lt_transitive(a, b, a);
    }
}

/// Two hashes that differ within their first `n` bytes have a first difference.
proof fn lemma_first_difference(a: Seq<u8>, b: Seq<u8>, n: int)
    requires
        0 <= n <= a.len(),
        n <= b.len(),
        a.subrange(0, n) != b.subrange(0, n),
    ensures
        hash_lt(a, b) || hash_lt(b, a),
    decreases n,
{
    if n == 0 {
        assert(a.subrange(0, 0) =~= b.subrange(0, 0));
    } else if a.subrange(0, n - 1) != b.subrange(0, n - 1) {
        lemma_first_difference(a, b, n - 1);
    } else {
        if a[n - 1] == b[n - 1] {
            assert(a.subrange(0, n) =~= a.subrange(0, n - 1).push(a[n - 1]));
            assert(b.subrange(0, n) =~= b.subrange(0, n - 1).push(b[n - 1]));
        } else if a[n - 1] < b[n - 1] {
            assert(first_gap(a, b, n - 1));
        } else {
            assert(first_gap(b, a, n - 1));
        }
    }
}

/// In an ascending directory every sector comes before every later one.
pub proof fn lemma_ascending_pairs(ht: Seq<([u8; 26], u64)>, i: int, j: int)
    requires
        ascending(ht),
        0 <= i < j < ht.len(),
    ensures
        hash_lt(ht[i].0@, ht[j].0@),
    decreases j - i,
{
    if i + 1 < j {
        lemma_ascending_pairs(ht, i, j - 1);
        assert(hash_lt(ht[j - 1].0@, ht[j].0@));
        lemma_hash_lt_transitive(ht[i].0@, ht[j - 1].0@, ht[j].0@);
    }
}

/// The sector that owns `hash`: the last whose key is not above the hash, among the
/// first `n` sectors of the directory.
pub open spec fn owner_among(ht: Seq<([u8; 26], u64)>, hash: Seq<u8>, n: int) -> int
    decreases n,
{
    if n <= 1 {
        0
    } else if !hash_lt(hash, ht[n - 1].0@) {
        n - 1
    } else {
        owner_among(ht, hash, n - 1)
    }
}

/// The sector that owns `hash`.
pub open spec fn owner_of(ht: Seq<([u8; 26], u64)>, hash: Seq<u8>) -> int {
    owner_among(ht, hash, ht.len() as int)
}

/// The owner of a hash is a sector of the directory whose key is not above the hash,
/// and the keys of all later sectors are.
pub proof fn lemma_owner_among(ht: Seq<([u8; 26], u64)>, hash: Seq<u8>, n: int)
    requires
        1 <= n <= ht.len(),
        ht[0].0@ == zeros(HASH_LEN as nat),
    ensures
        0 <= owner_among(ht, hash, n) < n,
        !hash_lt(hash, ht[owner_among(ht, hash, n)].0@),
        forall|j: int| owner_among(ht, hash, n) < j < n ==> hash_lt(hash, #[trigger] ht[j].0@),
    decreases n,
{
    if n <= 1 {
        lemma_zero_is_least(hash);
    } else if hash_lt(hash, ht[n - 1].0@) {
        lemma_owner_among(ht, hash, n - 1);
    }
}

/// Compares two hashes: whether `a` comes before `b`.
pub fn hash_less(a: &[u8; 26], b: &[u8; 26]) -> (less: bool)
    ensures
        less == hash_lt(a@, b@),
{
    let mut i: usize = 0;
    while i < 26
        invariant
            0 <= i <= 26,
            a@.subrange(0, i as int) == b@.subrange(0, i as int),
        decreases 26 - i,
    {
        if a[i] < b[i] {
            assert(first_gap(a@, b@, i as int));
            return true;
        }
        if a[i] > b[i] {
            proof {
                if hash_lt(a@, b@) {
                    let j = choose|j: int| first_gap(a@, b@, j);
                    if j < i {
                        lemma_prefix_agrees(a@, b@, i as int, j);
                    } else if j > i {
                        lemma_prefix_agrees(a@, b@, j, i as int);
                    }
                }
            }
            return false;
        }
        proof {
            assert(a@.subrange(0, i + 1) =~= a@.subrange(0, i as int).push(a@[i as int]));
            assert(b@.subrange(0, i + 1) =~= b@.subrange(0, i as int).push(b@[i as int]));
        }
        i += 1;
    }
    proof {
        assert(a@.subrange(0, 26) =~= a@);
        assert(b@.subrange(0, 26) =~= b@);
        lemma_hash_lt_irreflexive(a@);
    }
    false
}

/// Tells whether the first 26 bytes of `data` are the hash `hash`.
pub fn holds_hash(data: &Vec<u8>, hash: &[u8; 26]) -> (same: bool)
    requires
        data@.len() >= HASH_LEN,
    ensures
        same == (data@.subrange(0, HASH_LEN as int) == hash@),
{
    let mut i: usize = 0;
    while i < 26
        invariant
            0 <= i <= 26,
            data@.len() >= 26,
            data@.subrange(0, i as int) == hash@.subrange(0, i as int),
        decreases 26 - i,
    {
        if data[i] != hash[i] {
            proof {
                if data@.subrange(0, 26) == hash@ {
                    assert(data@.subrange(0, 26)[i as int] == hash@[i as int]);
                }
            }
            return false;
        }
        proof {
            assert(data@.subrange(0, i + 1) =~= data@.subrange(0, i as int).push(
                data@[i as int],
            ));
            assert(hash@.subrange(0, i + 1) =~= hash@.subrange(0, i as int).push(
                hash@[i as int],
            ));
        }
        i += 1;
    }
    proof {
        assert(hash@.subrange(0, 26) =~= hash@);
    }
    true
}

/// The hash that an index entry holds.
pub fn entry_hash(data: &Vec<u8>) -> (hash: [u8; 26])
    requires
        data@.len() >= HASH_LEN,
    ensures
        hash@ == data@.subrange(0, HASH_LEN as int),
{
    let mut hash = [0u8; 26];
    let mut i: usize = 0;
    while i < 26
        invariant
            0 <= i <= 26,
            data@.len() >= 26,
            forall|j: int| 0 <= j < i ==> hash@[j] == data@[j],
        decreases 26 - i,
    {
        hash[i] = data[i];
        i += 1;
    }
    assert(hash@ =~= data@.subrange(0, HASH_LEN as int));
    hash
}

/// Finds the sector of the directory that owns `hash`.
pub fn find_owner(ht: &Vec<([u8; 26], u64)>, hash: &[u8; 26]) -> (i: usize)
    requires
        ht@.len() > 0,
        ht@[0].0@ == zeros(HASH_LEN as nat),
    ensures
        i == owner_of(ht@, hash@),
        i < ht@.len(),
{
    let mut i = ht.len() - 1;
    while i > 0 && hash_less(hash, &ht[i].0)
        invariant
            0 <= i < ht@.len(),
            owner_of(ht@, hash@) == owner_among(ht@, hash@, i + 1),
        decreases i,
    {
        i -= 1;
    }
    i
}

} // verus!
