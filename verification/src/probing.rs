use vstd::prelude::*;
use crate::codec::home_slot;
use crate::image::Image;
use crate::indexshape::lemma_has_empty_slot;
use crate::indexshape::lemma_stops_once;
use crate::indexshape::probe_slot;
use crate::indexshape::slot_offset;
use crate::layout::NO_VALUE;
use crate::layout::SECTOR_SIZE;
use crate::layout::SLOTS_IN_SECTOR;

verus! {

/// Number of steps that the search takes from slot `a` to slot `b`.
pub open spec fn dist(a: int, b: int) -> int {
    if b >= a {
        b - a
    } else {
        b - a + SLOTS_IN_SECTOR
    }
}

/// The slot that the search reaches after `k` steps lies `k` steps from its start.
pub proof fn lemma_probe_dist(home: u64, k: int)
    requires
        home < SLOTS_IN_SECTOR,
        0 <= k < SLOTS_IN_SECTOR,
    ensures
        0 <= probe_slot(home, k) < SLOTS_IN_SECTOR,
        probe_slot(home, k) == if home + k < SLOTS_IN_SECTOR {
            home + k
        } else {
            home + k - SLOTS_IN_SECTOR
        },
        dist(home as int, probe_slot(home, k)) == k,
{
    let n = SLOTS_IN_SECTOR as int;
    if home + k < n {
        crate::cursor::lemma_div_mod_unique(home + k, n, 0, home + k);
    } else {
        crate::cursor::lemma_div_mod_unique(home + k, n, 1, home + k - n);
    }
}

/// The search reaches every slot, after as many steps as the slot lies from its start.
pub proof fn lemma_dist_probe(home: u64, slot: int)
    requires
        home < SLOTS_IN_SECTOR,
        0 <= slot < SLOTS_IN_SECTOR,
    ensures
        0 <= dist(home as int, slot) < SLOTS_IN_SECTOR,
        probe_slot(home, dist(home as int, slot)) == slot,
{
    lemma_probe_dist(home, dist(home as int, slot));
}

impl Image {
    /// Whether the entry in `slot` of the index sector at `base` is where the search
    /// for its hash ends: the search passes over every slot before it.
    pub open spec fn settled(self, base: u64, slot: int) -> bool {
        forall|t: int|
            0 <= t < SLOTS_IN_SECTOR && dist(home_slot(self.slot_hash(base, slot)) as int, t) < dist(
                home_slot(self.slot_hash(base, slot)) as int,
                slot,
            ) ==> #[trigger] self.passes(base, self.slot_hash(base, slot), t)
    }

    /// Whether every entry in use of the index sector at `base` is where the search
    /// for its hash ends.
    pub open spec fn searchable(self, base: u64) -> bool {
        forall|slot: int|
            0 <= slot < SLOTS_IN_SECTOR && #[trigger] self.slot_value(base, slot) != NO_VALUE
                ==> self.settled(base, slot)
    }

    /// Whether entry `slot` of the index sector at `base` holds `hash`.
    pub open spec fn holds(self, base: u64, hash: Seq<u8>, slot: int) -> bool {
        &&& 0 <= slot < SLOTS_IN_SECTOR
        &&& self.slot_value(base, slot) != NO_VALUE
        &&& self.slot_hash(base, slot) == hash
    }

    /// Whether the index sector at `base` has an empty entry.
    pub open spec fn has_room(self, base: u64) -> bool {
        exists|slot: int|
            0 <= slot < SLOTS_IN_SECTOR && #[trigger] self.slot_value(base, slot) == NO_VALUE
    }
}

/// A sector that counts fewer entries in use than it has entries has room.
pub proof fn lemma_room(image: Image, base: u64)
    requires
        image.occupied(base, SLOTS_IN_SECTOR as int) < SLOTS_IN_SECTOR,
    ensures
        image.has_room(base),
{
    let slot = lemma_has_empty_slot(image, base, SLOTS_IN_SECTOR as int);
    assert(image.slot_value(base, slot) == NO_VALUE);
}

/// Where the search for a hash does not end within `n` steps, it passes over the
/// first `n` slots on its way.
pub proof fn lemma_passes_all(image: Image, base: u64, hash: Seq<u8>, home: u64, n: int)
    requires
        home < SLOTS_IN_SECTOR,
        0 <= n <= SLOTS_IN_SECTOR,
        forall|k: int| 0 <= k < n ==> !image.stops(base, hash, home, k),
    ensures
        forall|j: int| 0 <= j < n ==> image.passes(base, hash, #[trigger] probe_slot(home, j)),
    decreases n,
{
    if n > 0 {
        lemma_passes_all(image, base, hash, home, n - 1);
        assert(!image.stops(base, hash, home, n - 1));
    }
}

/// In a sector with room the search for any hash ends at a slot that is empty or holds
/// the hash.
pub proof fn lemma_search_ends(image: Image, base: u64, hash: Seq<u8>)
    requires
        image.has_room(base),
    ensures
        image.stops(base, hash, home_slot(hash), image.probe_steps(base, hash, home_slot(hash))),
        0 <= image.found_slot(base, hash) < SLOTS_IN_SECTOR,
        !image.passes(base, hash, image.found_slot(base, hash)),
{
    let home = home_slot(hash);
    if !exists|k: int| image.stops(base, hash, home, k) {
        lemma_passes_all(image, base, hash, home, SLOTS_IN_SECTOR as int);
        let empty = choose|slot: int|
            0 <= slot < SLOTS_IN_SECTOR && #[trigger] image.slot_value(base, slot) == NO_VALUE;
        lemma_dist_probe(home, empty);
        assert(image.passes(base, hash, probe_slot(home, dist(home as int, empty))));
    }
    let k = image.probe_steps(base, hash, home);
    lemma_probe_dist(home, k);
}

/// In a searchable sector the search for a hash that an entry holds ends at that
/// entry.
pub proof fn lemma_found_where_held(image: Image, base: u64, hash: Seq<u8>, slot: int)
    requires
        image.searchable(base),
        image.holds(base, hash, slot),
    ensures
        image.found_slot(base, hash) == slot,
{
    let home = home_slot(hash);
    let k = dist(home as int, slot);
    lemma_dist_probe(home, slot);
    assert(image.settled(base, slot));
    assert forall|j: int| 0 <= j < k implies image.passes(
        base,
        hash,
        #[trigger] probe_slot(home, j),
    ) by {
        lemma_probe_dist(home, j);
    }
    assert(image.stops(base, hash, home, k));
    lemma_stops_once(image, base, hash, home, k);
}

/// In a searchable sector with room the search for a hash that no entry holds ends at
/// an empty entry.
pub proof fn lemma_found_empty(image: Image, base: u64, hash: Seq<u8>)
    requires
        image.has_room(base),
        forall|slot: int| !image.holds(base, hash, slot),
    ensures
        image.slot_value(base, image.found_slot(base, hash)) == NO_VALUE,
{
    lemma_search_ends(image, base, hash);
    let slot = image.found_slot(base, hash);
    assert(!image.holds(base, hash, slot));
}

/// In a searchable sector no two entries hold one hash.
pub proof fn lemma_held_once(image: Image, base: u64, hash: Seq<u8>, a: int, b: int)
    requires
        image.searchable(base),
        image.holds(base, hash, a),
        image.holds(base, hash, b),
    ensures
        a == b,
{
    lemma_found_where_held(image, base, hash, a);
    lemma_found_where_held(image, base, hash, b);
}

/// Whether the entries of the index sector at `base` are in `after` what they are in
/// `before`, but for entry `slot`.
pub open spec fn same_slots_but(before: Image, after: Image, base: u64, slot: int) -> bool {
    forall|j: int|
        0 <= j < SLOTS_IN_SECTOR && j != slot ==> #[trigger] after.slot(base, j) == before.slot(
            base,
            j,
        )
}

/// Writing an entry where the search for its hash ends keeps the sector searchable,
/// and changes which entry holds which hash only for that hash.
pub proof fn lemma_insert_searchable(
    before: Image,
    after: Image,
    base: u64,
    hash: Seq<u8>,
    value: u64,
)
    requires
        before.searchable(base),
        before.has_room(base),
        value != NO_VALUE,
        same_slots_but(before, after, base, before.found_slot(base, hash)),
        after.slot_hash(base, before.found_slot(base, hash)) == hash,
        after.slot_value(base, before.found_slot(base, hash)) == value,
    ensures
        after.searchable(base),
        after.holds(base, hash, before.found_slot(base, hash)),
        forall|other: Seq<u8>, j: int|
            other != hash ==> (#[trigger] after.holds(base, other, j) <==> before.holds(
                base,
                other,
                j,
            )),
        forall|j: int|
            #![trigger after.holds(base, hash, j)]
            after.holds(base, hash, j) ==> j == before.found_slot(base, hash),
        forall|other: Seq<u8>, j: int|
            other != hash && #[trigger] after.holds(base, other, j) ==> after.slot_value(base, j)
                == before.slot_value(base, j),
{
    let slot = before.found_slot(base, hash);
    let home = home_slot(hash);
    lemma_search_ends(before, base, hash);
    let k = before.probe_steps(base, hash, home);
    lemma_probe_dist(home, k);
    assert forall|j: int|
        0 <= j < SLOTS_IN_SECTOR && #[trigger] after.slot_value(base, j)
            != NO_VALUE implies after.settled(base, j) by {
        let g = after.slot_hash(base, j);
        assert forall|t: int|
            0 <= t < SLOTS_IN_SECTOR && dist(home_slot(g) as int, t) < dist(
                home_slot(g) as int,
                j,
            ) implies #[trigger] after.passes(base, g, t) by {
            if j == slot {
                lemma_dist_probe(home, t);
                assert(before.passes(base, hash, probe_slot(home, dist(home as int, t))));
                assert(after.slot(base, t) == before.slot(base, t));
            } else {
                assert(after.slot(base, j) == before.slot(base, j));
                assert(before.slot_value(base, j) != NO_VALUE);
                assert(before.slot_hash(base, j) == g);
                assert(before.settled(base, j));
                assert(before.passes(base, before.slot_hash(base, j), t));
                if t != slot {
                    assert(after.slot(base, t) == before.slot(base, t));
                }
            }
        }
    }
    assert forall|other: Seq<u8>, j: int| other != hash implies (#[trigger] after.holds(
        base,
        other,
        j,
    ) <==> before.holds(base, other, j)) by {
        if 0 <= j < SLOTS_IN_SECTOR && j != slot {
            assert(after.slot(base, j) == before.slot(base, j));
        }
    }
    assert forall|j: int|
        #![trigger after.holds(base, hash, j)]
        after.holds(base, hash, j) implies j == slot by {
        if j != slot {
            assert(after.slot(base, j) == before.slot(base, j));
            assert(before.holds(base, hash, j));
            lemma_found_where_held(before, base, hash, j);
        }
    }
    assert forall|other: Seq<u8>, j: int|
        other != hash && #[trigger] after.holds(base, other, j) implies after.slot_value(base, j)
        == before.slot_value(base, j) by {
        if j != slot {
            assert(after.slot(base, j) == before.slot(base, j));
        }
    }
}

/// In a searchable sector with room, what the search for a hash finds is the value of
/// the entry that holds the hash, and nothing where no entry holds it.
pub proof fn lemma_found_value(image: Image, base: u64, hash: Seq<u8>)
    requires
        image.searchable(base),
        image.has_room(base),
    ensures
        forall|slot: int|
            #![trigger image.holds(base, hash, slot)]
            image.holds(base, hash, slot) ==> image.slot_value(
                base,
                image.found_slot(base, hash),
            ) == image.slot_value(base, slot),
        (forall|slot: int| !image.holds(base, hash, slot)) ==> image.slot_value(
            base,
            image.found_slot(base, hash),
        ) == NO_VALUE,
{
    assert forall|slot: int|
        #![trigger image.holds(base, hash, slot)]
        image.holds(base, hash, slot) implies image.slot_value(
        base,
        image.found_slot(base, hash),
    ) == image.slot_value(base, slot) by {
        lemma_found_where_held(image, base, hash, slot);
    }
    if forall|slot: int| !image.holds(base, hash, slot) {
        lemma_found_empty(image, base, hash);
    }
}

/// Two searchable sectors with room in which the same entries hold a hash, with the
/// same values, give the same answer to the search for the hash.
pub proof fn lemma_same_answer(before: Image, after: Image, base: u64, hash: Seq<u8>)
    requires
        before.searchable(base),
        before.has_room(base),
        after.searchable(base),
        after.has_room(base),
        forall|j: int| #[trigger] after.holds(base, hash, j) <==> before.holds(base, hash, j),
        forall|j: int|
            #[trigger] after.holds(base, hash, j) ==> after.slot_value(base, j)
                == before.slot_value(base, j),
    ensures
        after.slot_value(base, after.found_slot(base, hash)) == before.slot_value(
            base,
            before.found_slot(base, hash),
        ),
{
    lemma_found_value(before, base, hash);
    lemma_found_value(after, base, hash);
    if exists|j: int| before.holds(base, hash, j) {
        let j = choose|j: int| before.holds(base, hash, j);
        assert(after.holds(base, hash, j));
    } else {
        assert forall|j: int| !after.holds(base, hash, j) by {
            if after.holds(base, hash, j) {
                assert(before.holds(base, hash, j));
            }
        }
    }
}

/// The offsets of the sector at `base`.
pub open spec fn sector_range(base: u64) -> Set<u64> {
    Set::new(|offset: u64| base <= offset < base + SECTOR_SIZE)
}

/// A write to an entry of a sector keeps what is read outside the sector.
pub proof fn lemma_put_in_sector(orig: Image, now: Image, base: u64, slot: int, data: Seq<u8>)
    requires
        crate::frame::agree_except(orig, now, sector_range(base)),
        0 <= slot < SLOTS_IN_SECTOR,
        base + SECTOR_SIZE <= u64::MAX,
    ensures
        crate::frame::agree_except(
            orig,
            now.put(slot_offset(base, slot) as u64, data),
            sector_range(base),
        ),
{
    let at = slot_offset(base, slot) as u64;
    crate::frame::lemma_agree_then_put(orig, now, sector_range(base), at, data);
    assert(sector_range(base).insert(at) =~= sector_range(base));
}

} // verus!
