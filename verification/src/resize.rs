use vstd::prelude::*;
use crate::codec::lemma_zero_entry;
use crate::codec::zeros;
use crate::engine::lemma_occupied_none;
use crate::hashorder::lemma_hash_lt_irreflexive;
use crate::hashorder::lemma_hash_lt_total;
use crate::hashorder::lemma_owner_among;
use crate::hashorder::owner_of;
use crate::image::Image;
use crate::indexlaws::directory_ok;
use crate::indexlaws::entered_at;
use crate::indexlaws::lemma_fit_kept;
use crate::indexlaws::lemma_insert_laws;
use crate::indexlaws::lemma_owner_range;
use crate::indexlaws::lemma_sectors_differ;
use crate::indexlaws::owner_base;
use crate::indexshape::hash_lt;
use crate::indexshape::SPLIT_OCCUPANCY;
use crate::layout::NO_VALUE;
use crate::layout::SLOTS_IN_SECTOR;
use crate::ownership::lemma_owner_entered;
use crate::probing::lemma_found_empty;
use crate::probing::lemma_found_where_held;
use crate::probing::lemma_held_once;
use crate::probing::lemma_room;
use crate::split::drained_by;
use crate::split::entered;
use crate::split::pair_le;
use crate::split::storable;

verus! {

/// Whether the hashes of the pairs are all different.
pub open spec fn distinct_hashes(pairs: Seq<([u8; 26], u64)>) -> bool {
    forall|a: int, b: int|
        0 <= a < b < pairs.len() ==> (#[trigger] pairs[a]).0@ != (#[trigger] pairs[b]).0@
}

/// Whether one of the first `done` pairs has the hash `hash`.
pub open spec fn among(pairs: Seq<([u8; 26], u64)>, done: int, hash: Seq<u8>) -> bool {
    exists|k: int| 0 <= k < done && 0 <= k < pairs.len() && (#[trigger] pairs[k]).0@ == hash
}

/// Whether entry `slot` of the index sector at `base` holds the hash and the value of
/// `pair`.
pub open spec fn held_at(image: Image, base: u64, pair: ([u8; 26], u64), slot: int) -> bool {
    image.holds(base, pair.0@, slot) && image.slot_value(base, slot) == pair.1
}

/// Whether an entry of the index sector at `base` holds the hash and the value of
/// `pair`.
pub open spec fn is_held(image: Image, base: u64, pair: ([u8; 26], u64)) -> bool {
    exists|slot: int| held_at(image, base, pair, slot)
}

/// Whether the pairs are the entries in use of the index sector at `base`: each is
/// held there, and each entry in use is one of them.
pub open spec fn holds_all(image: Image, base: u64, pairs: Seq<([u8; 26], u64)>) -> bool {
    &&& forall|k: int| 0 <= k < pairs.len() ==> is_held(image, base, #[trigger] pairs[k])
    &&& forall|slot: int|
        0 <= slot < SLOTS_IN_SECTOR && #[trigger] image.slot_value(base, slot) != NO_VALUE ==> among(
            pairs,
            pairs.len() as int,
            image.slot_hash(base, slot),
        )
}

/// The entries taken out of a searchable sector have different hashes.
pub proof fn lemma_drained_distinct(
    image: Image,
    base: u64,
    pairs: Seq<([u8; 26], u64)>,
    slots: Seq<int>,
)
    requires
        image.searchable(base),
        drained_by(image, base, pairs, slots, SLOTS_IN_SECTOR as int),
    ensures
        distinct_hashes(pairs),
        holds_all(image, base, pairs),
{
    assert forall|a: int, b: int| 0 <= a < b < pairs.len() implies (#[trigger] pairs[a]).0@ != (
    #[trigger] pairs[b]).0@ by {
        if pairs[a].0@ == pairs[b].0@ {
            assert(0 <= slots[a] < SLOTS_IN_SECTOR);
            assert(0 <= slots[b] < SLOTS_IN_SECTOR);
            lemma_held_once(image, base, pairs[a].0@, slots[a], slots[b]);
        }
    }
    assert forall|k: int| 0 <= k < pairs.len() implies is_held(image, base, #[trigger] pairs[k]) by {
        assert(0 <= slots[k] < SLOTS_IN_SECTOR);
        assert(held_at(image, base, pairs[k], slots[k]));
    }
    assert forall|slot: int|
        0 <= slot < SLOTS_IN_SECTOR && #[trigger] image.slot_value(base, slot)
            != NO_VALUE implies among(pairs, pairs.len() as int, image.slot_hash(base, slot)) by {
        assert(slots.contains(slot));
        let k = choose|k: int| 0 <= k < slots.len() && slots[k] == slot;
        assert(0 <= slots[k] < SLOTS_IN_SECTOR);
        assert(pairs[k].0@ == image.slot_hash(base, slot));
    }
}

/// Two sequences of the same items have the same members.
pub proof fn lemma_same_members(
    a: Seq<([u8; 26], u64)>,
    b: Seq<([u8; 26], u64)>,
    item: ([u8; 26], u64),
)
    requires
        a.to_multiset() == b.to_multiset(),
        a.contains(item),
    ensures
        b.contains(item),
{
    a.to_multiset_ensures();
    b.to_multiset_ensures();
    assert(a.to_multiset().count(item) > 0);
    assert(b.to_multiset().count(item) > 0);
}

/// Pairs put into another order keep their hashes different from one another, and
/// stay the entries of the sector they were taken from.
pub proof fn lemma_sorted_distinct(
    image: Image,
    base: u64,
    drained: Seq<([u8; 26], u64)>,
    sorted: Seq<([u8; 26], u64)>,
)
    requires
        distinct_hashes(drained),
        holds_all(image, base, drained),
        sorted.to_multiset() == drained.to_multiset(),
    ensures
        distinct_hashes(sorted),
        holds_all(image, base, sorted),
        sorted.len() == drained.len(),
{
    drained.to_multiset_ensures();
    sorted.to_multiset_ensures();
    assert(drained.no_duplicates()) by {
        assert forall|i: int, j: int|
            0 <= i < drained.len() && 0 <= j < drained.len() && i != j implies drained[i]
            != drained[j] by {
            if i < j {
                assert(drained[i].0@ != drained[j].0@);
            } else {
                assert(drained[j].0@ != drained[i].0@);
            }
        }
    }
    drained.lemma_multiset_has_no_duplicates();
    sorted.lemma_multiset_has_no_duplicates_conv();
    assert forall|a: int, b: int| 0 <= a < b < sorted.len() implies (#[trigger] sorted[a]).0@ != (
    #[trigger] sorted[b]).0@ by {
        assert(sorted[a] != sorted[b]);
        assert(sorted.contains(sorted[a]));
        assert(sorted.contains(sorted[b]));
        lemma_same_members(sorted, drained, sorted[a]);
        lemma_same_members(sorted, drained, sorted[b]);
        let i = choose|i: int| 0 <= i < drained.len() && drained[i] == sorted[a];
        let j = choose|j: int| 0 <= j < drained.len() && drained[j] == sorted[b];
        if i < j {
            assert(drained[i].0@ != drained[j].0@);
        } else {
            assert(drained[j].0@ != drained[i].0@);
        }
    }
    assert forall|k: int| 0 <= k < sorted.len() implies is_held(image, base, #[trigger] sorted[k]) by {
        assert(sorted.contains(sorted[k]));
        lemma_same_members(sorted, drained, sorted[k]);
        let i = choose|i: int| 0 <= i < drained.len() && drained[i] == sorted[k];
        assert(is_held(image, base, drained[i]));
    }
    assert forall|slot: int|
        0 <= slot < SLOTS_IN_SECTOR && #[trigger] image.slot_value(base, slot)
            != NO_VALUE implies among(sorted, sorted.len() as int, image.slot_hash(base, slot)) by {
        let hash = image.slot_hash(base, slot);
        assert(among(drained, drained.len() as int, hash));
        let i = choose|i: int|
            0 <= i < drained.len() && 0 <= i < drained.len() && (#[trigger] drained[i]).0@ == hash;
        assert(drained.contains(drained[i]));
        lemma_same_members(drained, sorted, drained[i]);
        let k = choose|k: int| 0 <= k < sorted.len() && sorted[k] == drained[i];
        assert(sorted[k].0@ == hash);
    }
}

/// Pairs in ascending order with different hashes are in ascending order of hash.
pub proof fn lemma_sorted_hashes(sorted: Seq<([u8; 26], u64)>, a: int, b: int)
    requires
        distinct_hashes(sorted),
        forall|i: int, j: int| 0 <= i < j < sorted.len() ==> pair_le(sorted[i], sorted[j]),
        0 <= a < b < sorted.len(),
    ensures
        hash_lt(sorted[a].0@, sorted[b].0@),
        !hash_lt(sorted[b].0@, sorted[a].0@),
{
    assert(pair_le(sorted[a], sorted[b]));
    assert(sorted[a].0@ != sorted[b].0@);
    lemma_hash_lt_total(sorted[a].0@, sorted[b].0@);
}

/// The hash of the pair in the middle.
pub open spec fn median(pairs: Seq<([u8; 26], u64)>) -> [u8; 26] {
    pairs[(pairs.len() / 2) as int].0
}

/// Whether the pairs stand in ascending order.
pub open spec fn in_order(pairs: Seq<([u8; 26], u64)>) -> bool {
    forall|i: int, j: int| 0 <= i < j < pairs.len() ==> pair_le(pairs[i], pairs[j])
}

/// Whether the directory `after` is the directory `ht` after sector `own` was split
/// at the median of the hashes that it held in `image`: a new sector, keyed by the
/// hash in the middle of the entries of the sector in ascending order, stands behind
/// it.
pub open spec fn split_at_median(
    image: Image,
    ht: Seq<([u8; 26], u64)>,
    own: int,
    after: Seq<([u8; 26], u64)>,
) -> bool {
    exists|pairs: Seq<([u8; 26], u64)>, fresh: u64|
        {
            &&& holds_all(image, ht[own].1, pairs)
            &&& distinct_hashes(pairs)
            &&& in_order(pairs)
            &&& #[trigger] ht.insert(own + 1, (median(pairs), fresh)) == after
        }
}

/// Whether the first half of the pairs belongs to the sector at `base` under the
/// directory `ht`, and the rest to the sector at `fresh`.
pub open spec fn halves(
    ht: Seq<([u8; 26], u64)>,
    pairs: Seq<([u8; 26], u64)>,
    base: u64,
    fresh: u64,
) -> bool {
    forall|k: int|
        0 <= k < pairs.len() ==> owner_base(ht, (#[trigger] pairs[k]).0@) == if k < pairs.len() / 2 {
            base
        } else {
            fresh
        }
}

/// Where a split stands once the sector at `base` was emptied and the empty sector
/// at `fresh` was entered into the directory: the index is fit for searching under
/// the new directory `after`, the two sectors are empty, the pairs taken out belong
/// half to the one and half to the other, and what belonged to neither is found as
/// in `orig` under the old directory `ht`.
pub open spec fn split_started(
    orig: Image,
    ht: Seq<([u8; 26], u64)>,
    start: Image,
    after: Seq<([u8; 26], u64)>,
    pairs: Seq<([u8; 26], u64)>,
    base: u64,
    fresh: u64,
) -> bool {
    &&& after.len() > 0
    &&& base != fresh
    &&& start.index_fit(after)
    &&& exists|i: int| 0 <= i < after.len() && (#[trigger] after[i]).1 == base
    &&& exists|i: int| 0 <= i < after.len() && (#[trigger] after[i]).1 == fresh
    &&& start.occupied(base, SLOTS_IN_SECTOR as int) == 0
    &&& start.occupied(fresh, SLOTS_IN_SECTOR as int) == 0
    &&& forall|i: int|
        0 <= i < after.len() && (#[trigger] after[i]).1 != base && after[i].1 != fresh
            ==> start.occupied(after[i].1, SLOTS_IN_SECTOR as int) < SPLIT_OCCUPANCY
    &&& halves(after, pairs, base, fresh)
    &&& forall|other: Seq<u8>|
        #[trigger] start.lookup(after, other) == if owner_base(ht, other) == base {
            NO_VALUE
        } else {
            orig.lookup(ht, other)
        }
}

/// An empty sector is fit for searching, and the search finds nothing in it.
pub proof fn lemma_empty_sector(image: Image, ht: Seq<([u8; 26], u64)>, base: u64)
    requires
        forall|j: int| 0 <= j < SLOTS_IN_SECTOR ==> #[trigger] image.slot(base, j) == zeros(32),
    ensures
        image.sector_fit(ht, base),
        image.occupied(base, SLOTS_IN_SECTOR as int) == 0,
        forall|hash: Seq<u8>|
            image.slot_value(base, #[trigger] image.found_slot(base, hash)) == NO_VALUE,
{
    lemma_zero_entry();
    lemma_occupied_none(image, base, SLOTS_IN_SECTOR as int);
    assert forall|j: int| 0 <= j < SLOTS_IN_SECTOR implies #[trigger] image.slot_value(base, j)
        == NO_VALUE by {
        assert(image.slot(base, j) == zeros(32));
    }
    lemma_room(image, base);
    assert forall|hash: Seq<u8>|
        image.slot_value(base, #[trigger] image.found_slot(base, hash)) == NO_VALUE by {
        crate::probing::lemma_search_ends(image, base, hash);
    }
}

/// An index whose sectors are all empty is sound.
pub proof fn lemma_empty_index(image: Image, ht: Seq<([u8; 26], u64)>)
    requires
        forall|i: int, j: int|
            0 <= i < ht.len() && 0 <= j < SLOTS_IN_SECTOR ==> #[trigger] image.slot(
                (#[trigger] ht[i]).1,
                j,
            ) == zeros(32),
    ensures
        image.index_sound(ht),
        forall|hash: Seq<u8>| ht.len() > 0 ==> #[trigger] image.lookup(ht, hash) == NO_VALUE,
{
    reveal(Image::index_sound);
    assert forall|i: int| 0 <= i < ht.len() implies image.sector_fit(ht, (#[trigger] ht[i]).1)
        && image.occupied(ht[i].1, SLOTS_IN_SECTOR as int) < SPLIT_OCCUPANCY by {
        assert forall|j: int| 0 <= j < SLOTS_IN_SECTOR implies #[trigger] image.slot(ht[i].1, j)
            == zeros(32) by {}
        lemma_empty_sector(image, ht, ht[i].1);
    }
    assert forall|hash: Seq<u8>| ht.len() > 0 implies #[trigger] image.lookup(ht, hash)
        == NO_VALUE by {
        lemma_owner_range(ht, hash);
        let i = owner_of(ht, hash);
        assert forall|j: int| 0 <= j < SLOTS_IN_SECTOR implies #[trigger] image.slot(ht[i].1, j)
            == zeros(32) by {}
        lemma_empty_sector(image, ht, ht[i].1);
    }
}

/// Whether the index is fit for searching and sector `own` of the directory, with at
/// least two entries, may be split: no other sector is as full as a sector gets.
pub open spec fn ready_to_split(image: Image, ht: Seq<([u8; 26], u64)>, own: int) -> bool {
    &&& 0 <= own < ht.len()
    &&& image.index_fit(ht)
    &&& forall|i: int|
        0 <= i < ht.len() && i != own ==> image.occupied(
            (#[trigger] ht[i]).1,
            SLOTS_IN_SECTOR as int,
        ) < SPLIT_OCCUPANCY
    &&& 2 <= image.occupied(ht[own].1, SLOTS_IN_SECTOR as int) <= SPLIT_OCCUPANCY
}

/// Emptying a sector of a fit index and entering an empty sector, keyed by the
/// median of the hashes taken out, starts a split.
#[verifier::spinoff_prover]
pub proof fn lemma_split_start(
    orig: Image,
    ht: Seq<([u8; 26], u64)>,
    start: Image,
    pairs: Seq<([u8; 26], u64)>,
    own: int,
    fresh: u64,
)
    requires
        directory_ok(orig, ht),
        orig.index_fit(ht),
        0 <= own < ht.len(),
        forall|i: int|
            0 <= i < ht.len() && i != own ==> orig.occupied(
                (#[trigger] ht[i]).1,
                SLOTS_IN_SECTOR as int,
            ) < SPLIT_OCCUPANCY,
        distinct_hashes(pairs),
        holds_all(orig, ht[own].1, pairs),
        forall|i: int, j: int| 0 <= i < j < pairs.len() ==> pair_le(pairs[i], pairs[j]),
        pairs.len() >= 2,
        orig.same_index_but(start, ht, ht[own].1),
        forall|j: int|
            0 <= j < SLOTS_IN_SECTOR ==> #[trigger] start.slot(ht[own].1, j) == zeros(32),
        forall|j: int| 0 <= j < SLOTS_IN_SECTOR ==> #[trigger] start.slot(fresh, j) == zeros(32),
        forall|i: int| 0 <= i < ht.len() ==> (#[trigger] ht[i]).1 != fresh,
    ensures
        split_started(
            orig,
            ht,
            start,
            entered(ht, median(pairs), fresh),
            pairs,
            ht[own].1,
            fresh,
        ),
        entered(ht, median(pairs), fresh) == ht.insert(
            own + 1,
            (median(pairs), fresh),
        ),
{
    let base = ht[own].1;
    let key = median(pairs);
    let mid: int = (pairs.len() / 2) as int;
    let after = entered(ht, key, fresh);
    // every pair belongs to the emptied sector
    assert forall|k: int| 0 <= k < pairs.len() implies owner_of(ht, (#[trigger] pairs[k]).0@)
        == own by {
        lemma_pair_owner(orig, ht, pairs, own, k);
    }
    // the median is above the key of the sector
    lemma_sorted_hashes(pairs, 0, mid);
    lemma_owner_among(ht, pairs[0].0@, ht.len() as int);
    assert(owner_of(ht, pairs[0].0@) == own);
    assert(owner_of(ht, key@) == own);
    assert(ht[own].0@ != key@);
    assert(after == ht.insert(own + 1, (key, fresh)));
    assert(after[own] == ht[own]);
    assert(after[own + 1] == (key, fresh));
    lemma_empty_sector(start, after, base);
    lemma_empty_sector(start, after, fresh);
    crate::indexlaws::lemma_others_kept(orig, start, ht, base);
    assert forall|i: int| 0 <= i < after.len() implies start.sector_fit(
        after,
        (#[trigger] after[i]).1,
    ) by {
        let other = after[i].1;
        if other != base && other != fresh {
            let j = if i <= own {
                i
            } else {
                i - 1
            };
            assert(after[i] == ht[j]);
            assert(start.sector_fit(ht, ht[j].1));
            assert forall|slot: int|
                0 <= slot < SLOTS_IN_SECTOR && #[trigger] start.slot_value(other, slot)
                    != NO_VALUE implies owner_base(after, start.slot_hash(other, slot)) == other by {
                let hash = start.slot_hash(other, slot);
                lemma_owner_entered(ht, key, fresh, hash);
                lemma_owner_range(ht, hash);
                if owner_of(ht, hash) == own {
                    assert(owner_base(ht, hash) == base);
                }
            }
        }
    }
    assert forall|i: int|
        0 <= i < after.len() && (#[trigger] after[i]).1 != base && after[i].1
            != fresh implies start.occupied(after[i].1, SLOTS_IN_SECTOR as int)
        < SPLIT_OCCUPANCY by {
        let j = if i <= own {
            i
        } else {
            i - 1
        };
        assert(after[i] == ht[j]);
        if j == own {
        } else {
            assert(ht[j].1 != base) by {
                lemma_sectors_differ(orig, ht, j, own);
            }
        }
    }
    assert forall|k: int| 0 <= k < pairs.len() implies owner_base(after, (#[trigger] pairs[k]).0@)
        == if k < pairs.len() / 2 {
        base
    } else {
        fresh
    } by {
        lemma_owner_entered(ht, key, fresh, pairs[k].0@);
        assert(owner_of(ht, pairs[k].0@) == own);
        if k < mid {
            lemma_sorted_hashes(pairs, k, mid);
        } else if k == mid {
            lemma_hash_lt_irreflexive(key@);
        } else {
            lemma_sorted_hashes(pairs, mid, k);
        }
    }
    assert forall|other: Seq<u8>| #[trigger] start.lookup(after, other) == if owner_base(ht, other)
        == base {
        NO_VALUE
    } else {
        orig.lookup(ht, other)
    } by {
        lemma_owner_entered(ht, key, fresh, other);
        lemma_owner_range(ht, other);
        if owner_base(ht, other) == base {
            if owner_of(ht, other) != own {
                lemma_sectors_differ(orig, ht, owner_of(ht, other), own);
            }
        } else {
            assert(owner_of(ht, other) != own);
            let home = owner_base(ht, other);
            assert(owner_base(after, other) == home);
            assert(orig.sector_fit(ht, ht[owner_of(ht, other)].1));
            assert forall|j: int| 0 <= j < SLOTS_IN_SECTOR implies #[trigger] start.slot(home, j)
                == orig.slot(home, j) by {}
            lemma_fit_kept(orig, start, ht, home);
        }
    }
    assert(split_started(orig, ht, start, after, pairs, base, fresh));
}

/// Where a split stands once the first `done` of the pairs were entered again: the
/// index is fit for searching, the two sectors of the split hold no more than their
/// halves of those pairs, each of those pairs is found, and any other hash is found
/// as in `start`.
pub open spec fn refilled(
    start: Image,
    now: Image,
    ht: Seq<([u8; 26], u64)>,
    pairs: Seq<([u8; 26], u64)>,
    done: int,
    base: u64,
    fresh: u64,
) -> bool {
    &&& now.index_fit(ht)
    &&& forall|i: int|
        0 <= i < ht.len() && (#[trigger] ht[i]).1 != base && ht[i].1 != fresh ==> now.occupied(
            ht[i].1,
            SLOTS_IN_SECTOR as int,
        ) == start.occupied(ht[i].1, SLOTS_IN_SECTOR as int)
    &&& now.occupied(base, SLOTS_IN_SECTOR as int) <= done
    &&& now.occupied(base, SLOTS_IN_SECTOR as int) <= pairs.len() / 2
    &&& now.occupied(fresh, SLOTS_IN_SECTOR as int) <= if done <= pairs.len() / 2 {
        0
    } else {
        done - pairs.len() / 2
    }
    &&& forall|k: int| 0 <= k < done ==> now.lookup(ht, (#[trigger] pairs[k]).0@) == pairs[k].1
    &&& forall|other: Seq<u8>|
        !among(pairs, done, other) ==> #[trigger] now.lookup(ht, other) == start.lookup(ht, other)
}

/// A split that has started has entered none of the pairs again.
pub proof fn lemma_refill_none(
    orig: Image,
    ht: Seq<([u8; 26], u64)>,
    start: Image,
    after: Seq<([u8; 26], u64)>,
    pairs: Seq<([u8; 26], u64)>,
    base: u64,
    fresh: u64,
)
    requires
        split_started(orig, ht, start, after, pairs, base, fresh),
    ensures
        refilled(start, start, after, pairs, 0, base, fresh),
{
}

/// Entering the next pair again carries a split on.
#[verifier::spinoff_prover]
pub proof fn lemma_refill_step(
    orig: Image,
    ht: Seq<([u8; 26], u64)>,
    start: Image,
    now: Image,
    next: Image,
    after: Seq<([u8; 26], u64)>,
    pairs: Seq<([u8; 26], u64)>,
    done: int,
    base: u64,
    fresh: u64,
)
    requires
        split_started(orig, ht, start, after, pairs, base, fresh),
        refilled(start, now, after, pairs, done, base, fresh),
        0 <= done < pairs.len(),
        pairs.len() <= SPLIT_OCCUPANCY,
        distinct_hashes(pairs),
        storable(pairs),
        entered_at(now, next, after, pairs[done].0@, pairs[done].1),
        next.occupied(owner_base(after, pairs[done].0@), SLOTS_IN_SECTOR as int) <= now.occupied(
            owner_base(after, pairs[done].0@),
            SLOTS_IN_SECTOR as int,
        ) + 1,
    ensures
        refilled(start, next, after, pairs, done + 1, base, fresh),
{
    let hash = pairs[done].0@;
    let value = pairs[done].1;
    let home = owner_base(after, hash);
    let ib = choose|i: int| 0 <= i < after.len() && (#[trigger] after[i]).1 == base;
    let ifr = choose|i: int| 0 <= i < after.len() && (#[trigger] after[i]).1 == fresh;
    assert(home == if done < pairs.len() / 2 {
        base
    } else {
        fresh
    });
    lemma_insert_laws(now, next, after, hash, value);
    assert(after[ib].1 == base);
    assert(after[ifr].1 == fresh);
    assert forall|k: int| 0 <= k < done + 1 implies next.lookup(after, (#[trigger] pairs[k]).0@)
        == pairs[k].1 by {
        if k < done {
            assert(pairs[k].0@ != pairs[done].0@);
        }
    }
    assert forall|other: Seq<u8>| !among(pairs, done + 1, other) implies #[trigger] next.lookup(
        after,
        other,
    ) == start.lookup(after, other) by {
        assert(other != hash) by {
            if other == hash {
                assert(among(pairs, done + 1, other));
            }
        }
        assert(!among(pairs, done, other)) by {
            if among(pairs, done, other) {
                let k = choose|k: int|
                    0 <= k < done && 0 <= k < pairs.len() && (#[trigger] pairs[k]).0@ == other;
                assert(among(pairs, done + 1, other));
            }
        }
    }
}

/// Once every pair was entered again the split is over: the index is sound under the
/// new directory, and every hash is found as it was before the split.
#[verifier::spinoff_prover]
pub proof fn lemma_split_done(
    orig: Image,
    ht: Seq<([u8; 26], u64)>,
    start: Image,
    last: Image,
    after: Seq<([u8; 26], u64)>,
    pairs: Seq<([u8; 26], u64)>,
    own: int,
    fresh: u64,
)
    requires
        directory_ok(orig, ht),
        orig.index_fit(ht),
        0 <= own < ht.len(),
        holds_all(orig, ht[own].1, pairs),
        split_started(orig, ht, start, after, pairs, ht[own].1, fresh),
        refilled(start, last, after, pairs, pairs.len() as int, ht[own].1, fresh),
        2 <= pairs.len() <= SPLIT_OCCUPANCY,
    ensures
        last.index_sound(after),
        forall|hash: Seq<u8>| #[trigger] last.lookup(after, hash) == orig.lookup(ht, hash),
{
    reveal(Image::index_sound);
    let base = ht[own].1;
    assert(orig.sector_fit(ht, ht[own].1));
    lemma_room(orig, base);
    assert forall|i: int| 0 <= i < after.len() implies last.occupied(
        (#[trigger] after[i]).1,
        SLOTS_IN_SECTOR as int,
    ) < SPLIT_OCCUPANCY by {}
    assert forall|hash: Seq<u8>| #[trigger] last.lookup(after, hash) == orig.lookup(ht, hash) by {
        if among(pairs, pairs.len() as int, hash) {
            let k = choose|k: int|
                0 <= k < pairs.len() && 0 <= k < pairs.len() && (#[trigger] pairs[k]).0@ == hash;
            lemma_pair_owner(orig, ht, pairs, own, k);
            assert(is_held(orig, base, pairs[k]));
            let slot = choose|slot: int| held_at(orig, base, pairs[k], slot);
            lemma_found_where_held(orig, base, hash, slot);
        } else {
            assert(last.lookup(after, hash) == start.lookup(after, hash));
            if owner_base(ht, hash) == base {
                assert forall|slot: int| !orig.holds(base, hash, slot) by {
                    if orig.holds(base, hash, slot) {
                        assert(among(pairs, pairs.len() as int, orig.slot_hash(base, slot)));
                    }
                }
                lemma_found_empty(orig, base, hash);
            }
        }
    }
}

/// A pair held in a sector of a fit index has a hash that the sector owns.
pub proof fn lemma_pair_owner(
    orig: Image,
    ht: Seq<([u8; 26], u64)>,
    pairs: Seq<([u8; 26], u64)>,
    own: int,
    k: int,
)
    requires
        directory_ok(orig, ht),
        orig.index_fit(ht),
        0 <= own < ht.len(),
        holds_all(orig, ht[own].1, pairs),
        0 <= k < pairs.len(),
    ensures
        owner_of(ht, pairs[k].0@) == own,
{
    let base = ht[own].1;
    assert(orig.sector_fit(ht, ht[own].1));
    assert(is_held(orig, base, pairs[k]));
    let slot = choose|slot: int| held_at(orig, base, pairs[k], slot);
    assert(orig.slot_value(base, slot) != NO_VALUE);
    assert(owner_base(ht, orig.slot_hash(base, slot)) == base);
    lemma_owner_range(ht, pairs[k].0@);
    if owner_of(ht, pairs[k].0@) != own {
        lemma_sectors_differ(orig, ht, owner_of(ht, pairs[k].0@), own);
    }
}

} // verus!
