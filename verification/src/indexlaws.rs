use vstd::prelude::*;
use crate::frame::agree_except;
use crate::gapclose::entry_is;
use crate::gapclose::gap_closed;
use crate::hashorder::lemma_ascending_pairs;
use crate::hashorder::lemma_hash_lt_irreflexive;
use crate::hashorder::owner_of;
use crate::image::Image;
use crate::indexshape::slot_offset;
use crate::indexshape::SPLIT_OCCUPANCY;
use crate::layout::HASH_LEN;
use crate::layout::NO_VALUE;
use crate::layout::SECTOR_SIZE;
use crate::layout::SLOTS_IN_SECTOR;
use crate::probing::lemma_found_empty;
use crate::probing::lemma_found_value;
use crate::probing::lemma_found_where_held;
use crate::probing::lemma_held_once;
use crate::probing::lemma_insert_searchable;
use crate::probing::lemma_room;
use crate::probing::lemma_same_answer;
use crate::probing::same_slots_but;
use crate::probing::sector_range;
use crate::sectors::lemma_sectors_apart;

verus! {

/// The sector of the directory that owns `hash`.
pub open spec fn owner_base(ht: Seq<([u8; 26], u64)>, hash: Seq<u8>) -> u64 {
    ht[owner_of(ht, hash)].1
}

impl Image {
    /// Whether the index sector at `base` is fit for searching: every entry in use is
    /// where the search for its hash ends, an entry is empty, and the sector owns the
    /// hashes of its entries.
    pub open spec fn sector_fit(self, ht: Seq<([u8; 26], u64)>, base: u64) -> bool {
        &&& self.searchable(base)
        &&& self.occupied(base, SLOTS_IN_SECTOR as int) < SLOTS_IN_SECTOR
        &&& forall|slot: int|
            0 <= slot < SLOTS_IN_SECTOR && #[trigger] self.slot_value(base, slot) != NO_VALUE
                ==> owner_base(ht, self.slot_hash(base, slot)) == base
    }

    /// Whether every sector of the index is fit for searching.
    pub open spec fn index_fit(self, ht: Seq<([u8; 26], u64)>) -> bool {
        forall|i: int| 0 <= i < ht.len() ==> self.sector_fit(ht, (#[trigger] ht[i]).1)
    }

    /// Whether every sector of the index is fit for searching and less full than the
    /// occupancy at which a sector is split.
    #[verifier::opaque]
    pub open spec fn index_sound(self, ht: Seq<([u8; 26], u64)>) -> bool {
        &&& self.index_fit(ht)
        &&& forall|i: int|
            0 <= i < ht.len() ==> self.occupied((#[trigger] ht[i]).1, SLOTS_IN_SECTOR as int)
                < SPLIT_OCCUPANCY
    }

    /// Whether the two images hold the same entries in every sector of the index but
    /// the one at `base`.
    pub open spec fn same_index_but(self, after: Image, ht: Seq<([u8; 26], u64)>, base: u64) -> bool {
        forall|i: int, j: int|
            0 <= i < ht.len() && (#[trigger] ht[i]).1 != base && 0 <= j < SLOTS_IN_SECTOR
                ==> #[trigger] after.slot(ht[i].1, j) == self.slot(ht[i].1, j)
    }
}

/// Whether the search for `hash` finds nothing in `after`, and the search for any
/// other hash finds in `after` what it finds in `before`.
pub open spec fn answers_without(
    before: Image,
    after: Image,
    ht: Seq<([u8; 26], u64)>,
    hash: Seq<u8>,
) -> bool {
    &&& after.lookup(ht, hash) == NO_VALUE
    &&& forall|other: Seq<u8>|
        other != hash ==> #[trigger] after.lookup(ht, other) == before.lookup(ht, other)
}

/// Whether the search for `hash` finds `value` in `after` under the directory
/// `ht_after`, and the search for any other hash finds there what it finds in
/// `before` under the directory `ht`.
pub open spec fn answers_with(
    before: Image,
    ht: Seq<([u8; 26], u64)>,
    after: Image,
    ht_after: Seq<([u8; 26], u64)>,
    hash: Seq<u8>,
    value: u64,
) -> bool {
    &&& after.lookup(ht_after, hash) == value
    &&& forall|other: Seq<u8>|
        other != hash ==> #[trigger] after.lookup(ht_after, other) == before.lookup(ht, other)
}

/// What taking `hash` out of a sound index leaves: a sound index in which the search
/// for the hash finds nothing and the search for any other hash finds what it found
/// before.
pub open spec fn index_without(
    before: Image,
    after: Image,
    ht: Seq<([u8; 26], u64)>,
    hash: Seq<u8>,
) -> bool {
    &&& after.index_sound(ht)
    &&& answers_without(before, after, ht, hash)
}

/// What entering `value` for `hash` into a sound index leaves: a sound index in which
/// the search for the hash finds the value and the search for any other hash finds
/// what it found before.
pub open spec fn index_with(
    before: Image,
    ht: Seq<([u8; 26], u64)>,
    after: Image,
    ht_after: Seq<([u8; 26], u64)>,
    hash: Seq<u8>,
    value: u64,
) -> bool {
    &&& after.index_sound(ht_after)
    &&& answers_with(before, ht, after, ht_after, hash, value)
}

impl Image {
    /// What the index holds under the directory `ht`: the hashes for which the search
    /// finds a value, each with that value.
    pub open spec fn index_map(self, ht: Seq<([u8; 26], u64)>) -> Map<Seq<u8>, u64> {
        Map::new(
            |hash: Seq<u8>| self.lookup(ht, hash) != NO_VALUE,
            |hash: Seq<u8>| self.lookup(ht, hash),
        )
    }
}

/// Entering a value for a hash puts the hash with its value into what the index
/// holds, and changes nothing else of it.
pub proof fn lemma_index_with_map(
    before: Image,
    ht: Seq<([u8; 26], u64)>,
    after: Image,
    ht_after: Seq<([u8; 26], u64)>,
    hash: Seq<u8>,
    value: u64,
)
    requires
        index_with(before, ht, after, ht_after, hash, value),
        value != NO_VALUE,
    ensures
        after.index_map(ht_after) == before.index_map(ht).insert(hash, value),
{
    assert(after.index_map(ht_after) =~= before.index_map(ht).insert(hash, value));
}

/// Taking a hash out of the index takes it out of what the index holds, and changes
/// nothing else of it.
pub proof fn lemma_index_without_map(
    before: Image,
    after: Image,
    ht: Seq<([u8; 26], u64)>,
    hash: Seq<u8>,
)
    requires
        index_without(before, after, ht, hash),
    ensures
        after.index_map(ht) == before.index_map(ht).remove(hash),
{
    assert(after.index_map(ht) =~= before.index_map(ht).remove(hash));
}

/// Whether `after` is `before` with the entry for `hash` and `value` written where
/// the search for the hash ends, as far as the entries of the index go.
pub open spec fn entered_at(
    before: Image,
    after: Image,
    ht: Seq<([u8; 26], u64)>,
    hash: Seq<u8>,
    value: u64,
) -> bool {
    let base = owner_base(ht, hash);
    let slot = before.found_slot(base, hash);
    &&& same_slots_but(before, after, base, slot)
    &&& after.slot(base, slot) == crate::codec::entry_bytes(hash, value)
    &&& before.same_index_but(after, ht, base)
}

/// Whether `ht` is a directory of sectors of the file: it starts with the sector
/// keyed by the zero hash and lists its sectors, each with the key that the sector
/// records, in ascending order of key.
pub open spec fn directory_ok(image: Image, ht: Seq<([u8; 26], u64)>) -> bool {
    &&& ht.len() > 0
    &&& ht[0].0@ == crate::codec::zeros(HASH_LEN as nat)
    &&& crate::indexshape::ascending(ht)
    &&& forall|i: int|
        0 <= i < ht.len() ==> image.has_sector((#[trigger] ht[i]).1) && image.read(
            ht[i].1,
            HASH_LEN as nat,
        ) == ht[i].0@
}

/// The directory of a well-formed index is a directory of sectors of the file.
pub proof fn lemma_index_directory(image: Image, ht: Seq<([u8; 26], u64)>)
    requires
        image.index_ok(ht),
    ensures
        directory_ok(image, ht),
{
    assert forall|i: int| 0 <= i < ht.len() implies image.has_sector((#[trigger] ht[i]).1)
        && image.read(ht[i].1, HASH_LEN as nat) == ht[i].0@ by {
        assert(image.index_sector_ok(ht[i].0@, ht[i].1));
    }
}

/// The sectors of a directory are different sectors.
pub proof fn lemma_sectors_differ(image: Image, ht: Seq<([u8; 26], u64)>, i: int, j: int)
    requires
        directory_ok(image, ht),
        0 <= i < ht.len(),
        0 <= j < ht.len(),
        i != j,
    ensures
        ht[i].1 != ht[j].1,
        ht[i].1 + SECTOR_SIZE <= ht[j].1 || ht[j].1 + SECTOR_SIZE <= ht[i].1,
{
    assert(image.has_sector(ht[i].1));
    assert(image.has_sector(ht[j].1));
    if i < j {
        lemma_ascending_pairs(ht, i, j);
    } else {
        lemma_ascending_pairs(ht, j, i);
    }
    lemma_hash_lt_irreflexive(ht[i].0@);
    if ht[i].1 != ht[j].1 {
        lemma_sectors_apart(ht[i].1, ht[j].1);
    }
}

/// A change within one sector of the index leaves the entries of the others as they
/// are.
pub proof fn lemma_same_index_but(
    before: Image,
    after: Image,
    ht: Seq<([u8; 26], u64)>,
    base: u64,
)
    requires
        forall|i: int| 0 <= i < ht.len() ==> before.has_sector((#[trigger] ht[i]).1),
        crate::layout::is_sector_base(base),
        agree_except(before, after, sector_range(base)),
    ensures
        before.same_index_but(after, ht, base),
{
    assert forall|i: int, j: int|
        0 <= i < ht.len() && (#[trigger] ht[i]).1 != base && 0 <= j
            < SLOTS_IN_SECTOR implies #[trigger] after.slot(ht[i].1, j) == before.slot(
        ht[i].1,
        j,
    ) by {
        assert(before.has_sector(ht[i].1));
        lemma_sectors_apart(ht[i].1, base);
        let at = slot_offset(ht[i].1, j) as u64;
        assert(!sector_range(base).contains(at));
        assert(after.read(at, 32) == before.read(at, 32));
    }
}

/// A sector whose entries are as before is as fit for searching as before.
pub proof fn lemma_fit_kept(before: Image, after: Image, ht: Seq<([u8; 26], u64)>, base: u64)
    requires
        before.sector_fit(ht, base),
        forall|j: int|
            0 <= j < SLOTS_IN_SECTOR ==> #[trigger] after.slot(base, j) == before.slot(base, j),
    ensures
        after.sector_fit(ht, base),
        after.occupied(base, SLOTS_IN_SECTOR as int) == before.occupied(base, SLOTS_IN_SECTOR as int),
        forall|hash: Seq<u8>|
            after.slot_value(base, #[trigger] after.found_slot(base, hash)) == before.slot_value(
                base,
                before.found_slot(base, hash),
            ),
{
    crate::indexshape::lemma_occupied_frame(before, after, base, SLOTS_IN_SECTOR as int);
    assert forall|slot: int|
        0 <= slot < SLOTS_IN_SECTOR && #[trigger] after.slot_value(base, slot)
            != NO_VALUE implies after.settled(base, slot) by {
        assert(after.slot(base, slot) == before.slot(base, slot));
        assert(before.slot_value(base, slot) != NO_VALUE);
        assert(before.settled(base, slot));
        assert forall|t: int|
            0 <= t < SLOTS_IN_SECTOR && crate::probing::dist(
                crate::codec::home_slot(after.slot_hash(base, slot)) as int,
                t,
            ) < crate::probing::dist(
                crate::codec::home_slot(after.slot_hash(base, slot)) as int,
                slot,
            ) implies #[trigger] after.passes(base, after.slot_hash(base, slot), t) by {
            assert(before.passes(base, before.slot_hash(base, slot), t));
            assert(after.slot(base, t) == before.slot(base, t));
        }
    }
    assert forall|slot: int|
        0 <= slot < SLOTS_IN_SECTOR && #[trigger] after.slot_value(base, slot)
            != NO_VALUE implies owner_base(ht, after.slot_hash(base, slot)) == base by {
        assert(after.slot(base, slot) == before.slot(base, slot));
        assert(before.slot_value(base, slot) != NO_VALUE);
    }
    lemma_room(before, base);
    lemma_room(after, base);
    assert forall|hash: Seq<u8>|
        after.slot_value(base, #[trigger] after.found_slot(base, hash)) == before.slot_value(
            base,
            before.found_slot(base, hash),
        ) by {
        assert forall|j: int| #[trigger] after.holds(base, hash, j) <==> before.holds(
            base,
            hash,
            j,
        ) by {
            if 0 <= j < SLOTS_IN_SECTOR {
                assert(after.slot(base, j) == before.slot(base, j));
            }
        }
        assert forall|j: int| #[trigger] after.holds(base, hash, j) implies after.slot_value(
            base,
            j,
        ) == before.slot_value(base, j) by {
            assert(after.slot(base, j) == before.slot(base, j));
        }
        crate::probing::lemma_same_answer(before, after, base, hash);
    }
}

/// Where one sector of the index changes, the others stay as fit for searching as
/// they were, as full as they were, and answer as they did.
#[verifier::spinoff_prover]
pub proof fn lemma_others_kept(before: Image, after: Image, ht: Seq<([u8; 26], u64)>, base: u64)
    requires
        ht.len() > 0,
        before.index_fit(ht),
        before.same_index_but(after, ht, base),
    ensures
        forall|i: int|
            0 <= i < ht.len() && (#[trigger] ht[i]).1 != base ==> after.sector_fit(ht, ht[i].1),
        forall|i: int|
            0 <= i < ht.len() && (#[trigger] ht[i]).1 != base ==> after.occupied(
                ht[i].1,
                SLOTS_IN_SECTOR as int,
            ) == before.occupied(ht[i].1, SLOTS_IN_SECTOR as int),
        forall|other: Seq<u8>|
            owner_base(ht, other) != base ==> #[trigger] after.lookup(ht, other) == before.lookup(
                ht,
                other,
            ),
{
    assert forall|i: int| 0 <= i < ht.len() && (#[trigger] ht[i]).1 != base implies after.sector_fit(
        ht,
        ht[i].1,
    ) && after.occupied(ht[i].1, SLOTS_IN_SECTOR as int) == before.occupied(
        ht[i].1,
        SLOTS_IN_SECTOR as int,
    ) by {
        let other = ht[i].1;
        assert(before.sector_fit(ht, other));
        assert forall|j: int| 0 <= j < SLOTS_IN_SECTOR implies #[trigger] after.slot(other, j)
            == before.slot(other, j) by {}
        lemma_fit_kept(before, after, ht, other);
    }
    assert forall|other: Seq<u8>| owner_base(ht, other) != base implies #[trigger] after.lookup(
        ht,
        other,
    ) == before.lookup(ht, other) by {
        let home = owner_base(ht, other);
        let i = owner_of(ht, other);
        lemma_owner_range(ht, other);
        assert(before.sector_fit(ht, ht[i].1));
        assert forall|j: int| 0 <= j < SLOTS_IN_SECTOR implies #[trigger] after.slot(home, j)
            == before.slot(home, j) by {}
        lemma_fit_kept(before, after, ht, home);
    }
}

/// Closing the gap that a hash leaves keeps its sector fit for searching, lets the
/// search for the hash find nothing, and lets the search for any other hash find
/// what it found before.
#[verifier::spinoff_prover]
pub proof fn lemma_delete_sector(
    before: Image,
    after: Image,
    ht: Seq<([u8; 26], u64)>,
    base: u64,
    hash: Seq<u8>,
)
    requires
        before.sector_fit(ht, base),
        before.slot_value(base, before.found_slot(base, hash)) != NO_VALUE,
        gap_closed(before, after, base, before.found_slot(base, hash)),
        after.occupied(base, SLOTS_IN_SECTOR as int) == before.occupied(
            base,
            SLOTS_IN_SECTOR as int,
        ) - 1,
    ensures
        after.sector_fit(ht, base),
        after.slot_value(base, after.found_slot(base, hash)) == NO_VALUE,
        forall|other: Seq<u8>|
            other != hash ==> after.slot_value(base, #[trigger] after.found_slot(base, other))
                == before.slot_value(base, before.found_slot(base, other)),
{
    lemma_room(before, base);
    lemma_room(after, base);
    crate::probing::lemma_search_ends(before, base, hash);
    let start = before.found_slot(base, hash);
    assert(before.holds(base, hash, start));
    assert forall|slot: int|
        0 <= slot < SLOTS_IN_SECTOR && #[trigger] after.slot_value(base, slot)
            != NO_VALUE implies owner_base(ht, after.slot_hash(base, slot)) == base by {
        let q = choose|q: int| #[trigger] entry_is(before, base, start, q, after.slot(base, slot));
        assert(before.slot_value(base, q) != NO_VALUE);
    }
    assert forall|p: int| !after.holds(base, hash, p) by {
        if after.holds(base, hash, p) {
            let q = choose|q: int| #[trigger] entry_is(before, base, start, q, after.slot(base, p));
            assert(before.holds(base, hash, q));
            lemma_held_once(before, base, hash, q, start);
        }
    }
    lemma_found_empty(after, base, hash);
    assert forall|other: Seq<u8>| other != hash implies after.slot_value(
        base,
        #[trigger] after.found_slot(base, other),
    ) == before.slot_value(base, before.found_slot(base, other)) by {
        lemma_found_value(before, base, other);
        lemma_found_value(after, base, other);
        if exists|p: int| after.holds(base, other, p) {
            let p = choose|p: int| after.holds(base, other, p);
            let q = choose|q: int| #[trigger] entry_is(before, base, start, q, after.slot(base, p));
            assert(before.holds(base, other, q));
        } else {
            if exists|q: int| before.holds(base, other, q) {
                let q = choose|q: int| before.holds(base, other, q);
                assert(q != start);
                assert(before.in_use_but(base, start, q));
                let p = choose|p: int| #[trigger] entry_is(after, base, -1, p, before.slot(base, q));
                assert(after.holds(base, other, p));
            }
        }
    }
}

/// Taking a hash out of the index leaves the index fit for searching, and sound where
/// it was, lets the search for the hash find nothing, and lets the search for any
/// other hash find what it found before.
#[verifier::spinoff_prover]
pub proof fn lemma_delete_laws(before: Image, after: Image, ht: Seq<([u8; 26], u64)>, hash: Seq<u8>)
    requires
        before.index_ok(ht),
        before.index_fit(ht),
        before.lookup(ht, hash) != NO_VALUE,
        gap_closed(
            before,
            after,
            owner_base(ht, hash),
            before.found_slot(owner_base(ht, hash), hash),
        ),
        agree_except(before, after, sector_range(owner_base(ht, hash))),
        after.occupied(owner_base(ht, hash), SLOTS_IN_SECTOR as int) == before.occupied(
            owner_base(ht, hash),
            SLOTS_IN_SECTOR as int,
        ) - 1,
    ensures
        after.index_fit(ht),
        answers_without(before, after, ht, hash),
        before.index_sound(ht) ==> after.index_sound(ht),
{
    reveal(Image::index_sound);
    let base = owner_base(ht, hash);
    let owner = owner_of(ht, hash);
    lemma_owner_range(ht, hash);
    assert(before.index_sector_ok(ht[owner].0@, base));
    assert(before.sector_fit(ht, ht[owner].1));
    assert forall|i: int| 0 <= i < ht.len() implies before.has_sector((#[trigger] ht[i]).1) by {
        assert(before.index_sector_ok(ht[i].0@, ht[i].1));
    }
    lemma_same_index_but(before, after, ht, base);
    lemma_others_kept(before, after, ht, base);
    lemma_delete_sector(before, after, ht, base, hash);
    assert forall|i: int| 0 <= i < ht.len() implies after.sector_fit(ht, (#[trigger] ht[i]).1) by {}
    assert forall|other: Seq<u8>| other != hash implies #[trigger] after.lookup(ht, other)
        == before.lookup(ht, other) by {
        if owner_base(ht, other) == base {
            assert(after.slot_value(base, after.found_slot(base, other)) == before.slot_value(
                base,
                before.found_slot(base, other),
            ));
        }
    }
    if before.index_sound(ht) {
        assert forall|i: int| 0 <= i < ht.len() implies after.occupied(
            (#[trigger] ht[i]).1,
            SLOTS_IN_SECTOR as int,
        ) < SPLIT_OCCUPANCY by {}
    }
}

/// Writing an entry where the search for its hash ends, in the sector that owns the
/// hash, keeps the sector fit for searching, lets the search for the hash find the
/// value, and lets the search for any other hash find what it found before.
#[verifier::spinoff_prover]
pub proof fn lemma_insert_sector(
    before: Image,
    after: Image,
    ht: Seq<([u8; 26], u64)>,
    base: u64,
    hash: Seq<u8>,
    value: u64,
)
    requires
        before.sector_fit(ht, base),
        owner_base(ht, hash) == base,
        hash.len() == HASH_LEN,
        0 < value < crate::layout::VALUE_LIMIT,
        same_slots_but(before, after, base, before.found_slot(base, hash)),
        after.slot(base, before.found_slot(base, hash)) == crate::codec::entry_bytes(hash, value),
        after.occupied(base, SLOTS_IN_SECTOR as int) < SLOTS_IN_SECTOR,
    ensures
        after.sector_fit(ht, base),
        after.slot_value(base, after.found_slot(base, hash)) == value,
        forall|other: Seq<u8>|
            other != hash ==> after.slot_value(base, #[trigger] after.found_slot(base, other))
                == before.slot_value(base, before.found_slot(base, other)),
{
    let slot = before.found_slot(base, hash);
    lemma_room(before, base);
    lemma_room(after, base);
    crate::codec::lemma_entry_roundtrip(hash, value);
    lemma_insert_searchable(before, after, base, hash, value);
    assert forall|j: int|
        0 <= j < SLOTS_IN_SECTOR && #[trigger] after.slot_value(base, j)
            != NO_VALUE implies owner_base(ht, after.slot_hash(base, j)) == base by {
        if j != slot {
            assert(after.slot(base, j) == before.slot(base, j));
            assert(before.slot_value(base, j) != NO_VALUE);
        }
    }
    lemma_found_where_held(after, base, hash, slot);
    assert forall|other: Seq<u8>| other != hash implies after.slot_value(
        base,
        #[trigger] after.found_slot(base, other),
    ) == before.slot_value(base, before.found_slot(base, other)) by {
        lemma_same_answer(before, after, base, other);
    }
}

/// Entering a value for a hash where the search for the hash ends, in the sector that
/// owns it, leaves the index fit for searching, lets the search for the hash find the
/// value, and lets the search for any other hash find what it found before.
#[verifier::spinoff_prover]
pub proof fn lemma_insert_laws(
    before: Image,
    after: Image,
    ht: Seq<([u8; 26], u64)>,
    hash: Seq<u8>,
    value: u64,
)
    requires
        ht.len() > 0,
        before.index_fit(ht),
        hash.len() == HASH_LEN,
        0 < value < crate::layout::VALUE_LIMIT,
        entered_at(before, after, ht, hash, value),
        after.occupied(owner_base(ht, hash), SLOTS_IN_SECTOR as int) < SLOTS_IN_SECTOR,
    ensures
        after.index_fit(ht),
        answers_with(before, ht, after, ht, hash, value),
        forall|i: int|
            0 <= i < ht.len() && (#[trigger] ht[i]).1 != owner_base(ht, hash) ==> after.occupied(
                ht[i].1,
                SLOTS_IN_SECTOR as int,
            ) == before.occupied(ht[i].1, SLOTS_IN_SECTOR as int),
{
    let base = owner_base(ht, hash);
    let owner = owner_of(ht, hash);
    lemma_owner_range(ht, hash);
    assert(before.sector_fit(ht, ht[owner].1));
    lemma_others_kept(before, after, ht, base);
    lemma_insert_sector(before, after, ht, base, hash, value);
    assert forall|i: int| 0 <= i < ht.len() implies after.sector_fit(ht, (#[trigger] ht[i]).1) by {}
    assert forall|other: Seq<u8>| other != hash implies #[trigger] after.lookup(ht, other)
        == before.lookup(ht, other) by {
        if owner_base(ht, other) == base {
            assert(after.slot_value(base, after.found_slot(base, other)) == before.slot_value(
                base,
                before.found_slot(base, other),
            ));
        }
    }
}

/// A write to the occupancy of an index sector keeps the entries of the index.
pub proof fn lemma_count_keeps(
    before: Image,
    after: Image,
    ht: Seq<([u8; 26], u64)>,
    base: u64,
    data: Seq<u8>,
)
    requires
        forall|i: int| 0 <= i < ht.len() ==> before.has_sector((#[trigger] ht[i]).1),
        crate::layout::is_sector_base(base),
        base + SECTOR_SIZE <= u64::MAX,
        after == before.put((base + 32) as u64, data),
    ensures
        forall|i: int, j: int|
            0 <= i < ht.len() && 0 <= j < SLOTS_IN_SECTOR ==> #[trigger] after.slot(
                (#[trigger] ht[i]).1,
                j,
            ) == before.slot(ht[i].1, j),
{
    assert forall|i: int, j: int| 0 <= i < ht.len() && 0 <= j < SLOTS_IN_SECTOR implies #[trigger] after.slot(
        (#[trigger] ht[i]).1,
        j,
    ) == before.slot(ht[i].1, j) by {
        assert(before.has_sector(ht[i].1));
        if ht[i].1 != base {
            lemma_sectors_apart(ht[i].1, base);
        }
        assert(slot_offset(ht[i].1, j) != base + 32);
    }
}

/// A write to the occupancy of the sector that an entry went into leaves the entry
/// entered, and every sector with as many entries in use.
pub proof fn lemma_entered_counted(
    before: Image,
    mid: Image,
    after: Image,
    ht: Seq<([u8; 26], u64)>,
    hash: Seq<u8>,
    value: u64,
    data: Seq<u8>,
)
    requires
        ht.len() > 0,
        forall|i: int| 0 <= i < ht.len() ==> mid.has_sector((#[trigger] ht[i]).1),
        mid.file_size() <= u64::MAX,
        entered_at(before, mid, ht, hash, value),
        after == mid.put((owner_base(ht, hash) + 32) as u64, data),
    ensures
        entered_at(before, after, ht, hash, value),
        forall|i: int|
            0 <= i < ht.len() ==> after.occupied((#[trigger] ht[i]).1, SLOTS_IN_SECTOR as int)
                == mid.occupied(ht[i].1, SLOTS_IN_SECTOR as int),
{
    let base = owner_base(ht, hash);
    let owner = owner_of(ht, hash);
    lemma_owner_range(ht, hash);
    assert(mid.has_sector(ht[owner].1));
    lemma_count_keeps(mid, after, ht, base, data);
    assert forall|j: int| 0 <= j < SLOTS_IN_SECTOR implies #[trigger] after.slot(base, j)
        == mid.slot(base, j) by {
        assert(after.slot(ht[owner].1, j) == mid.slot(ht[owner].1, j));
    }
    assert forall|i: int| 0 <= i < ht.len() implies after.occupied(
        (#[trigger] ht[i]).1,
        SLOTS_IN_SECTOR as int,
    ) == mid.occupied(ht[i].1, SLOTS_IN_SECTOR as int) by {
        assert forall|j: int| 0 <= j < SLOTS_IN_SECTOR implies #[trigger] after.slot(ht[i].1, j)
            == mid.slot(ht[i].1, j) by {}
        crate::indexshape::lemma_occupied_frame(mid, after, ht[i].1, SLOTS_IN_SECTOR as int);
    }
}

/// An index whose entries are as before is as fit for searching and as sound as
/// before, and answers as before.
pub proof fn lemma_index_kept(before: Image, after: Image, ht: Seq<([u8; 26], u64)>)
    requires
        ht.len() > 0,
        before.index_fit(ht),
        crate::indexshape::same_index(before, after, ht),
    ensures
        after.index_fit(ht),
        before.index_sound(ht) ==> after.index_sound(ht),
        forall|hash: Seq<u8>| #[trigger] after.lookup(ht, hash) == before.lookup(ht, hash),
{
    reveal(Image::index_sound);
    assert forall|i: int| 0 <= i < ht.len() implies after.sector_fit(ht, (#[trigger] ht[i]).1)
        && after.occupied(ht[i].1, SLOTS_IN_SECTOR as int) == before.occupied(
        ht[i].1,
        SLOTS_IN_SECTOR as int,
    ) by {
        assert(before.sector_fit(ht, ht[i].1));
        assert forall|j: int| 0 <= j < SLOTS_IN_SECTOR implies #[trigger] after.slot(ht[i].1, j)
            == before.slot(ht[i].1, j) by {}
        lemma_fit_kept(before, after, ht, ht[i].1);
    }
    assert forall|hash: Seq<u8>| #[trigger] after.lookup(ht, hash) == before.lookup(ht, hash) by {
        let i = owner_of(ht, hash);
        lemma_owner_range(ht, hash);
        assert(before.sector_fit(ht, ht[i].1));
        assert forall|j: int| 0 <= j < SLOTS_IN_SECTOR implies #[trigger] after.slot(ht[i].1, j)
            == before.slot(ht[i].1, j) by {}
        lemma_fit_kept(before, after, ht, ht[i].1);
    }
}

/// A sound index that is kept stays sound, and answers as before.
pub proof fn lemma_kept_sound(before: Image, after: Image, ht: Seq<([u8; 26], u64)>)
    requires
        ht.len() > 0,
        before.index_sound(ht),
        crate::indexshape::index_kept(before, after, ht),
    ensures
        after.index_sound(ht),
        forall|hash: Seq<u8>| #[trigger] after.lookup(ht, hash) == before.lookup(ht, hash),
{
    reveal(Image::index_sound);
    crate::indexshape::lemma_kept_same_index(before, after, ht);
    lemma_index_kept(before, after, ht);
}

/// The owner of any hash is a sector of the directory.
pub proof fn lemma_owner_range(ht: Seq<([u8; 26], u64)>, hash: Seq<u8>)
    requires
        ht.len() > 0,
    ensures
        0 <= owner_of(ht, hash) < ht.len(),
{
    lemma_owner_among_range(ht, hash, ht.len() as int);
}

/// The owner of any hash among the first sectors of the directory is one of them.
pub proof fn lemma_owner_among_range(ht: Seq<([u8; 26], u64)>, hash: Seq<u8>, n: int)
    requires
        1 <= n <= ht.len(),
    ensures
        0 <= crate::hashorder::owner_among(ht, hash, n) < n,
    decreases n,
{
    if n > 1 && crate::indexshape::hash_lt(hash, ht[n - 1].0@) {
        lemma_owner_among_range(ht, hash, n - 1);
    }
}

} // verus!
