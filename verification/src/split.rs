use vstd::prelude::*;
use crate::codec::encode_num;
use crate::codec::extract_value;
use crate::codec::lemma_entry_value_bound;
use crate::codec::lemma_num_roundtrip;
use crate::codec::lemma_num_zero;
use crate::codec::num_bytes;
use crate::codec::zero_bytes;
use crate::codec::zeros;
use crate::engine::lemma_occupied_none;
use crate::frame::agree_except;
use crate::hashorder::entry_hash;
use crate::hashorder::find_owner;
use crate::hashorder::hash_less;
use crate::hashorder::lemma_hash_lt_total;
use crate::hashorder::lemma_owner_among;
use crate::hashorder::owner_of;
use crate::image::Image;
use crate::indexshape::ascending;
use crate::indexshape::hash_lt;
use crate::indexshape::slot_offset;
use crate::layout::FIRST_SLOT_OFFSET;
use crate::layout::HASH_LEN;
use crate::layout::is_sector_base;
use crate::layout::NO_VALUE;
use crate::layout::PAGE_TYPE_HT;
use crate::layout::SECTOR_OCCUPANCY_OFFSET;
use crate::layout::SECTOR_SIZE;
use crate::layout::SLOT_SIZE;
use crate::layout::SLOTS_IN_SECTOR;
use crate::layout::VALUE_LIMIT;
use crate::sectors::allocation;
use crate::sectors::allocation_touches;
use crate::sectors::free_list_after_allocate;
use crate::sectors::holds_zeros;
use crate::sectors::is_written;
use crate::sectors::lemma_allocation_agrees;
use crate::sectors::prefix_len;
use crate::shape::lemma_conforming_after_allocation;
use crate::shape::lemma_in_sector;
use crate::table::HashTable;
use crate::upkeep::lemma_allocation_spares;
use crate::upkeep::lemma_loose_write;
use crate::upkeep::lemma_occupancy_cell;
use crate::upkeep::lemma_slot_cell;
use crate::upkeep::lemma_tighten;
use crate::upkeep::loose;
use crate::upkeep::steady;
use crate::valuelog::lemma_free_kinds_after_allocation;

verus! {

/// Whether the log header reads the same in two images.
pub open spec fn same_log_header(a: Image, b: Image) -> bool {
    &&& a.num(16) == b.num(16)
    &&& a.num(24) == b.num(24)
    &&& a.num(32) == b.num(32)
    &&& a.num(48) == b.num(48)
}

/// Whether pair `a` does not come after pair `b`: by hash first, by value then.
pub open spec fn pair_le(a: ([u8; 26], u64), b: ([u8; 26], u64)) -> bool {
    hash_lt(a.0@, b.0@) || (a.0@ == b.0@ && a.1 <= b.1)
}

/// Sorts pairs of hash and value in ascending order.
///
/// Rests on `sort_unstable` of slices, which sorts in ascending order of the items
/// and keeps the items; pairs are ordered by their first part, then by their second,
/// and arrays of bytes byte by byte.
#[verifier::external_body]
pub(crate) fn sort_pairs(pairs: &mut Vec<([u8; 26], u64)>)
    ensures
        final(pairs)@.to_multiset() == old(pairs)@.to_multiset(),
        forall|i: int, j: int|
            0 <= i < j < final(pairs)@.len() ==> pair_le(final(pairs)@[i], final(pairs)@[j]),
{
    pairs.sort_unstable();
}

/// Whether every pair holds a value that an index entry can hold.
pub open spec fn storable(pairs: Seq<([u8; 26], u64)>) -> bool {
    forall|i: int| 0 <= i < pairs.len() ==> 0 < (#[trigger] pairs[i]).1 < VALUE_LIMIT
}

/// The prelude of a sector of the index: key, padding, occupancy, a spare field, type
/// and free-list pointer.
pub open spec fn is_index_prelude(chunks: Seq<Vec<u8>>, key: Seq<u8>) -> bool {
    &&& chunks.len() == 6
    &&& chunks[0]@ == key
    &&& key.len() == 26
    &&& chunks[1]@ == zeros(6)
    &&& chunks[2]@ == zeros(8)
    &&& chunks[3]@ == zeros(8)
    &&& chunks[4]@ == num_bytes(PAGE_TYPE_HT)
    &&& chunks[5]@ == zeros(8)
}

/// A sector allocated with the prelude of the index is an empty sector of the index
/// with that key, and all its pending writes respect the layout.
pub proof fn lemma_index_sector_cells(
    after: Image,
    reused: bool,
    before: Image,
    ret: u64,
    chunks: Seq<Vec<u8>>,
    key: Seq<u8>,
)
    requires
        is_index_prelude(chunks, key),
        is_sector_base(ret),
        allocation(before, after, reused, ret, chunks, 64, 32),
    ensures
        after.kind(ret) == PAGE_TYPE_HT,
        after.read(ret, 26) == key,
        after.occupancy(ret) == 0,
        after.occupied(ret, SLOTS_IN_SECTOR as int) == 0,
        forall|k: u64|
            ret <= k < ret + SECTOR_SIZE && #[trigger] after.changes.contains_key(k)
                ==> after.cell_ok(k, after.changes[k].len()),
        forall|j: int| 0 <= j < SLOTS_IN_SECTOR ==> #[trigger] after.slot(ret, j) == zeros(32),
{
    reveal_with_fuel(prefix_len, 7);
    let el: int = 32;
    lemma_num_roundtrip(PAGE_TYPE_HT);
    lemma_num_zero();
    assert(prefix_len(chunks, 0) == 0);
    assert(prefix_len(chunks, 1) == 26);
    assert(prefix_len(chunks, 2) == 32);
    assert(prefix_len(chunks, 3) == 40);
    assert(prefix_len(chunks, 4) == 48);
    assert(prefix_len(chunks, 5) == 56);
    assert(after.changes[ret] == key);
    assert(after.changes[(ret + 32) as u64] == zeros(8));
    assert(after.changes[(ret + 48) as u64] == num_bytes(PAGE_TYPE_HT));
    assert(after.kind(ret) == PAGE_TYPE_HT);
    assert forall|k: u64|
        ret <= k < ret + SECTOR_SIZE && #[trigger] after.changes.contains_key(
            k,
        ) implies after.cell_ok(k, after.changes[k].len()) by {
        lemma_in_sector(ret, k);
        assert(is_written(chunks, 64, 32, k - ret));
        if exists|i: int| 0 <= i < chunks.len() && k - ret == #[trigger] prefix_len(chunks, i) {
            let i = choose|i: int|
                0 <= i < chunks.len() && k - ret == #[trigger] prefix_len(chunks, i);
            assert(after.changes[(ret + prefix_len(chunks, i)) as u64] == chunks[i]@);
        } else {
            assert(holds_zeros(after.changes, k, el as nat));
        }
    }
    assert forall|j: int| 0 <= j < SLOTS_IN_SECTOR implies #[trigger] after.slot(ret, j) == zeros(
        32,
    ) by {
        let at = slot_offset(ret, j) as u64;
        assert((at - ret - 64) % 32 == 0);
        assert(holds_zeros(after.changes, at, el as nat));
    }
    lemma_occupied_none(after, ret, SLOTS_IN_SECTOR as int);
}

impl HashTable {
    /// Allocates an empty sector for the index, keyed by `key`.
    #[verifier::spinoff_prover]
    pub(crate) fn open_index_sector(&mut self, key: &[u8; 26]) -> (ret: u64)
        requires
            old(self).tx.coherent(old(self).disk@),
            steady(
                old(self).image(),
                old(self).free_list(),
                old(self).ht_mapping@,
                old(self).values_mapping@,
                old(self).delmap_mapping@,
            ),
        ensures
            old(self).image().accounted(
                old(self).ht_mapping@,
                old(self).values_mapping@,
                old(self).delmap_mapping@,
            ) ==> final(self).image().accounted_but(
                old(self).ht_mapping@,
                old(self).values_mapping@,
                old(self).delmap_mapping@,
                ret,
            ),
            crate::logview::log_kept(
                old(self).image(),
                final(self).image(),
                old(self).values_mapping@,
                old(self).delmap_mapping@,
            ),
            final(self).tx.coherent(final(self).disk@),
            steady(
                final(self).image(),
                final(self).free_list(),
                final(self).ht_mapping@,
                final(self).values_mapping@,
                final(self).delmap_mapping@,
            ),
            final(self).free_list() == free_list_after_allocate(old(self).free_list()),
            agree_except(old(self).image(), final(self).image(), allocation_touches(ret)),
            same_log_header(old(self).image(), final(self).image()),
            final(self).image().index_sector_ok(key@, ret),
            final(self).image().occupied(ret, SLOTS_IN_SECTOR as int) == 0,
            final(self).memory() == old(self).memory(),
            forall|j: int|
                0 <= j < SLOTS_IN_SECTOR ==> #[trigger] final(self).image().slot(ret, j) == zeros(32),
            crate::indexshape::same_index(
                old(self).image(),
                final(self).image(),
                old(self).ht_mapping@,
            ),
            forall|i: int|
                0 <= i < old(self).ht_mapping@.len() ==> (#[trigger] old(self).ht_mapping@[i]).1
                    != ret,
    {
        proof {
            reveal(crate::upkeep::steady);
        }
        let ghost before = self.image();
        let ghost chain = self.free_list();
        let mut prelude: Vec<Vec<u8>> = Vec::new();
        prelude.push(vstd::slice::slice_to_vec(key.as_slice()));
        prelude.push(zero_bytes(6));
        prelude.push(zero_bytes(8));
        prelude.push(zero_bytes(8));
        prelude.push(encode_num(PAGE_TYPE_HT));
        prelude.push(zero_bytes(8));
        proof {
            reveal_with_fuel(prefix_len, 7);
            assert(prefix_len(prelude@, 6) == 64);
            assert(is_index_prelude(prelude@, key@));
        }
        let ret = self.allocate_sector(prelude, FIRST_SLOT_OFFSET, SLOT_SIZE);
        proof {
            lemma_allocation_agrees(before, self.image(), chain.len() > 0, ret, prelude@, 64, 32);
            lemma_index_sector_cells(self.image(), chain.len() > 0, before, ret, prelude@, key@);
            lemma_conforming_after_allocation(before, self.image(), ret);
            lemma_free_kinds_after_allocation(before, self.image(), chain, ret);
            lemma_allocation_spares(
                before,
                self.image(),
                chain,
                self.ht_mapping@,
                self.values_mapping@,
                self.delmap_mapping@,
                ret,
            );
            if before.accounted(self.ht_mapping@, self.values_mapping@, self.delmap_mapping@) {
                crate::accounting::lemma_accounted_allocated(
                    before,
                    self.image(),
                    self.ht_mapping@,
                    self.values_mapping@,
                    self.delmap_mapping@,
                    ret,
                );
            }
            assert(!allocation_touches(ret).contains(16));
            assert(!allocation_touches(ret).contains(24));
            assert(!allocation_touches(ret).contains(32));
            assert(!allocation_touches(ret).contains(48));
            assert(self.image().read(16, 8) == before.read(16, 8));
            assert(self.image().read(24, 8) == before.read(24, 8));
            assert(self.image().read(32, 8) == before.read(32, 8));
            assert(self.image().read(48, 8) == before.read(48, 8));
        }
        ret
    }
}

/// The directory after the sector at `base`, keyed by `key`, was entered: it takes the
/// place of a sector of the same key, or stands behind the sector that owned the key.
pub open spec fn entered(ht: Seq<([u8; 26], u64)>, key: [u8; 26], base: u64) -> Seq<
    ([u8; 26], u64),
> {
    let owner = owner_of(ht, key@);
    if ht[owner].0@ == key@ {
        ht.update(owner, (key, base))
    } else {
        ht.insert(owner + 1, (key, base))
    }
}

/// Whether the directory `after` is the directory `before` with one sector entered.
pub open spec fn grown(before: Seq<([u8; 26], u64)>, after: Seq<([u8; 26], u64)>) -> bool {
    exists|key: [u8; 26], base: u64| #[trigger] entered(before, key, base) == after
}

/// Tells whether two hashes are the same.
pub fn same_hash(a: &[u8; 26], b: &[u8; 26]) -> (same: bool)
    ensures
        same == (a@ == b@),
{
    proof {
        lemma_hash_lt_total(a@, b@);
    }
    !hash_less(a, b) && !hash_less(b, a)
}

/// Whether `pairs` are the entries in use among the first `n` of the index sector at
/// `base`, in the order of their slots, which `slots` lists.
pub open spec fn drained_by(
    image: Image,
    base: u64,
    pairs: Seq<([u8; 26], u64)>,
    slots: Seq<int>,
    n: int,
) -> bool {
    &&& slots.len() == pairs.len()
    &&& forall|k: int|
        0 <= k < pairs.len() ==> {
            &&& 0 <= #[trigger] slots[k] < n
            &&& image.slot_value(base, slots[k]) == pairs[k].1
            &&& image.slot_hash(base, slots[k]) == pairs[k].0@
            &&& pairs[k].1 != NO_VALUE
        }
    &&& forall|a: int, b: int| 0 <= a < b < slots.len() ==> slots[a] < slots[b]
    &&& forall|slot: int|
        0 <= slot < n && #[trigger] image.slot_value(base, slot) != NO_VALUE ==> slots.contains(slot)
}

/// An empty entry adds nothing to the entries in use.
pub proof fn lemma_drained_skip(
    image: Image,
    base: u64,
    pairs: Seq<([u8; 26], u64)>,
    slots: Seq<int>,
    n: int,
)
    requires
        drained_by(image, base, pairs, slots, n),
        image.slot_value(base, n) == NO_VALUE,
    ensures
        drained_by(image, base, pairs, slots, n + 1),
{
    assert forall|k: int| 0 <= k < pairs.len() implies 0 <= #[trigger] slots[k] < n + 1 by {}
}

/// An entry in use comes behind the entries in use before it.
pub proof fn lemma_drained_push(
    image: Image,
    base: u64,
    pairs: Seq<([u8; 26], u64)>,
    slots: Seq<int>,
    n: int,
    pair: ([u8; 26], u64),
)
    requires
        drained_by(image, base, pairs, slots, n),
        0 <= n,
        image.slot_value(base, n) == pair.1,
        image.slot_hash(base, n) == pair.0@,
        pair.1 != NO_VALUE,
    ensures
        drained_by(image, base, pairs.push(pair), slots.push(n), n + 1),
{
    let more = pairs.push(pair);
    let places = slots.push(n);
    assert forall|slot: int|
        0 <= slot < n + 1 && #[trigger] image.slot_value(base, slot) != NO_VALUE implies places.contains(
        slot,
    ) by {
        if slot < n {
            assert(slots.contains(slot));
            let k = choose|k: int| 0 <= k < slots.len() && slots[k] == slot;
            assert(places[k] == slot);
        } else {
            assert(places[slots.len() as int] == slot);
        }
    }
    assert forall|k: int| 0 <= k < more.len() implies {
        &&& 0 <= #[trigger] places[k] < n + 1
        &&& image.slot_value(base, places[k]) == more[k].1
        &&& image.slot_hash(base, places[k]) == more[k].0@
        &&& more[k].1 != NO_VALUE
    } by {
        if k < pairs.len() {
            assert(places[k] == slots[k]);
            assert(more[k] == pairs[k]);
        }
    }
    assert forall|a: int, b: int| 0 <= a < b < places.len() implies places[a] < places[b] by {
        assert(places[a] == slots[a]);
        if b < slots.len() {
            assert(places[b] == slots[b]);
        }
    }
}

impl HashTable {
    /// Takes all entries out of the index sector at `sector_offset`, and returns them
    /// in the order of their slots, with the slots they stood in.
    #[verifier::spinoff_prover]
    pub(crate) fn drain_sector(&mut self, sector_offset: u64) -> (drained: (
        Vec<([u8; 26], u64)>,
        Ghost<Seq<int>>,
    ))
        requires
            old(self).tx.coherent(old(self).disk@),
            loose(
                old(self).image(),
                old(self).free_list(),
                old(self).ht_mapping@,
                old(self).values_mapping@,
                old(self).delmap_mapping@,
                sector_offset,
            ),
            old(self).image().has_sector(sector_offset),
            old(self).image().kind(sector_offset) == PAGE_TYPE_HT,
        ensures
            crate::sectorview::sectors_kept(old(self).image(), final(self).image()),
            crate::logview::log_kept(
                old(self).image(),
                final(self).image(),
                old(self).values_mapping@,
                old(self).delmap_mapping@,
            ),
            final(self).tx.coherent(final(self).disk@),
            steady(
                final(self).image(),
                final(self).free_list(),
                final(self).ht_mapping@,
                final(self).values_mapping@,
                final(self).delmap_mapping@,
            ),
            same_log_header(old(self).image(), final(self).image()),
            storable(drained.0@),
            drained.0@.len() == old(self).image().occupied(sector_offset, SLOTS_IN_SECTOR as int),
            final(self).memory() == old(self).memory(),
            final(self).free_list() == old(self).free_list(),
            drained_by(
                old(self).image(),
                sector_offset,
                drained.0@,
                drained.1@,
                SLOTS_IN_SECTOR as int,
            ),
            forall|j: int|
                0 <= j < SLOTS_IN_SECTOR ==> #[trigger] final(self).image().slot(sector_offset, j)
                    == zeros(32),
            agree_except(
                old(self).image(),
                final(self).image(),
                crate::probing::sector_range(sector_offset),
            ),
    {
        let ghost start = self.image();
        let mut pairs: Vec<([u8; 26], u64)> = Vec::new();
        let ghost mut slots: Seq<int> = Seq::empty();
        proof {
            crate::frame::lemma_agree_same(start);
            crate::frame::lemma_agree_widen(
                start,
                start,
                Set::<u64>::empty(),
                crate::probing::sector_range(sector_offset),
            );
        }
        let mut slot: u64 = 0;
        while slot < SLOTS_IN_SECTOR
            invariant
                0 <= slot <= SLOTS_IN_SECTOR,
                start == old(self).image(),
                self.tx.coherent(self.disk@),
                loose(
                    self.image(),
                    self.free_list(),
                    self.ht_mapping@,
                    self.values_mapping@,
                    self.delmap_mapping@,
                    sector_offset,
                ),
                self.image().has_sector(sector_offset),
                self.image().kind(sector_offset) == PAGE_TYPE_HT,
                same_log_header(start, self.image()),
                self.memory() == old(self).memory(),
                self.free_list() == old(self).free_list(),
                storable(pairs@),
                pairs@.len() == start.occupied(sector_offset, slot as int),
                drained_by(start, sector_offset, pairs@, slots, slot as int),
                agree_except(start, self.image(), crate::probing::sector_range(sector_offset)),
                crate::logview::log_kept(
                    start,
                    self.image(),
                    self.values_mapping@,
                    self.delmap_mapping@,
                ),
                crate::sectorview::sectors_kept(start, self.image()),
                sector_offset + SECTOR_SIZE <= u64::MAX,
                forall|j: int|
                    0 <= j < slot ==> #[trigger] self.image().slot(sector_offset, j) == zeros(32),
                forall|j: int|
                    slot <= j < SLOTS_IN_SECTOR ==> #[trigger] self.image().slot(sector_offset, j)
                        == start.slot(sector_offset, j),
            decreases SLOTS_IN_SECTOR - slot,
        {
            let ghost before = self.image();
            proof {
                lemma_slot_cell(before, sector_offset, slot as int);
                assert(before.slot(sector_offset, slot as int) == start.slot(
                    sector_offset,
                    slot as int,
                ));
            }
            let slot_offset = sector_offset + slot * SLOT_SIZE + FIRST_SLOT_OFFSET;
            let data = self.tx.get(&mut self.disk, slot_offset, SLOT_SIZE);
            let value = extract_value(&data);
            if value != NO_VALUE {
                proof {
                    lemma_entry_value_bound(data@);
                }
                let ghost held = pairs@;
                let ghost places = slots;
                let pair = (entry_hash(&data), value);
                pairs.push(pair);
                proof {
                    slots = places.push(slot as int);
                    lemma_drained_push(start, sector_offset, held, places, slot as int, pair);
                }
            }
            proof {
                if value == NO_VALUE {
                    lemma_drained_skip(start, sector_offset, pairs@, slots, slot as int);
                }
                crate::probing::lemma_put_in_sector(
                    start,
                    before,
                    sector_offset,
                    slot as int,
                    zeros(32),
                );
                lemma_loose_write(
                    before,
                    self.free_list(),
                    self.ht_mapping@,
                    self.values_mapping@,
                    self.delmap_mapping@,
                    sector_offset,
                    slot_offset,
                    zeros(32),
                );
                let after = before.put(slot_offset, zeros(32));
                assert forall|j: int| 0 <= j < SLOTS_IN_SECTOR && j != slot implies #[trigger] after.slot(
                    sector_offset,
                    j,
                ) == before.slot(sector_offset, j) by {
                    assert(crate::indexshape::slot_offset(sector_offset, j) != slot_offset);
                }
            }
            self.tx.set(slot_offset, zero_bytes(SLOT_SIZE as usize));
            slot += 1;
        }
        proof {
            let before = self.image();
            lemma_occupancy_cell(before, sector_offset);
            lemma_loose_write(
                before,
                self.free_list(),
                self.ht_mapping@,
                self.values_mapping@,
                self.delmap_mapping@,
                sector_offset,
                (sector_offset + 32) as u64,
                zeros(8),
            );
            let after = before.put((sector_offset + 32) as u64, zeros(8));
            assert forall|j: int| 0 <= j < SLOTS_IN_SECTOR implies #[trigger] after.slot(
                sector_offset,
                j,
            ) == zeros(32) by {
                assert(crate::indexshape::slot_offset(sector_offset, j) != sector_offset + 32);
                assert(before.slot(sector_offset, j) == zeros(32));
            }
            lemma_occupied_none(after, sector_offset, SLOTS_IN_SECTOR as int);
            lemma_num_zero();
            crate::frame::lemma_agree_then_put(
                start,
                before,
                crate::probing::sector_range(sector_offset),
                (sector_offset + 32) as u64,
                zeros(8),
            );
            assert(crate::probing::sector_range(sector_offset).insert((sector_offset + 32) as u64)
                =~= crate::probing::sector_range(sector_offset));
            lemma_tighten(
                after,
                self.free_list(),
                self.ht_mapping@,
                self.values_mapping@,
                self.delmap_mapping@,
                sector_offset,
            );
        }
        self.tx.set(sector_offset + SECTOR_OCCUPANCY_OFFSET, zero_bytes(8));
        (pairs, Ghost(slots))
    }

    /// Enters the index sector at `base`, keyed by `key`, into the directory.
    #[verifier::spinoff_prover]
    pub(crate) fn enter_sector(&mut self, key: [u8; 26], base: u64)
        requires
            steady(
                old(self).image(),
                old(self).free_list(),
                old(self).ht_mapping@,
                old(self).values_mapping@,
                old(self).delmap_mapping@,
            ),
            old(self).image().index_sector_ok(key@, base),
        ensures
            steady(
                final(self).image(),
                final(self).free_list(),
                final(self).ht_mapping@,
                final(self).values_mapping@,
                final(self).delmap_mapping@,
            ),
            final(self).ht_mapping@ == entered(old(self).ht_mapping@, key, base),
            final(self).image() == old(self).image(),
            final(self).tx == old(self).tx,
            final(self).disk == old(self).disk,
            final(self).free_list() == old(self).free_list(),
            final(self).values_mapping@ == old(self).values_mapping@,
            final(self).delmap_mapping@ == old(self).delmap_mapping@,
            final(self).salt == old(self).salt,
            final(self).writes_since_resize == old(self).writes_since_resize,
            final(self).del_balance == old(self).del_balance,
    {
        proof {
            reveal(crate::upkeep::steady);
        }
        proof {
            lemma_entered_steady(
                self.image(),
                self.free_list(),
                self.ht_mapping@,
                self.values_mapping@,
                self.delmap_mapping@,
                key,
                base,
            );
        }
        enter(&mut self.ht_mapping, key, base);
    }
}

/// Enters the sector at `base`, keyed by `key`, into a directory of the index.
pub fn enter(ht: &mut Vec<([u8; 26], u64)>, key: [u8; 26], base: u64)
    requires
        old(ht)@.len() > 0,
        old(ht)@[0].0@ == zeros(HASH_LEN as nat),
    ensures
        final(ht)@ == entered(old(ht)@, key, base),
{
    let owner = find_owner(ht, &key);
    let len = ht.len();
    if same_hash(&ht[owner].0, &key) {
        ht[owner] = (key, base);
    } else {
        ht.insert(owner + 1, (key, base));
    }
}

/// A directory stays in ascending order, and starts with the zero hash, when a sector
/// is entered.
#[verifier::spinoff_prover]
pub proof fn lemma_entered_ascending(ht: Seq<([u8; 26], u64)>, key: [u8; 26], base: u64)
    requires
        ht.len() > 0,
        ht[0].0@ == zeros(HASH_LEN as nat),
        ascending(ht),
    ensures
        ascending(entered(ht, key, base)),
        entered(ht, key, base).len() > 0,
        entered(ht, key, base)[0].0@ == zeros(HASH_LEN as nat),
        forall|i: int|
            0 <= i < entered(ht, key, base).len() ==> #[trigger] entered(ht, key, base)[i] == (
                key,
                base,
            ) || exists|j: int| 0 <= j < ht.len() && ht[j] == entered(ht, key, base)[i],
{
    let owner = owner_of(ht, key@);
    let grown = entered(ht, key, base);
    lemma_owner_among(ht, key@, ht.len() as int);
    lemma_hash_lt_total(ht[owner].0@, key@);
    assert forall|i: int| 0 <= i && i + 1 < grown.len() implies hash_lt(
        #[trigger] grown[i].0@,
        grown[i + 1].0@,
    ) by {
        if ht[owner].0@ == key@ {
            assert(hash_lt(ht[i].0@, ht[i + 1].0@));
        } else {
            if i < owner {
                assert(hash_lt(ht[i].0@, ht[i + 1].0@));
            } else if i == owner {
            } else if i == owner + 1 {
                assert(hash_lt(key@, ht[owner + 1].0@));
            } else {
                assert(hash_lt(ht[i - 1].0@, ht[i].0@));
            }
        }
    }
    assert forall|i: int| 0 <= i < grown.len() implies #[trigger] grown[i] == (key, base)
        || exists|j: int| 0 <= j < ht.len() && ht[j] == grown[i] by {
        if ht[owner].0@ == key@ {
            if i != owner {
                assert(ht[i] == grown[i]);
            }
        } else {
            if i <= owner {
                assert(ht[i] == grown[i]);
            } else if i > owner + 1 {
                assert(ht[i - 1] == grown[i]);
            }
        }
    }
}

/// Whether the directory holds the key `key`.
pub open spec fn has_key(ht: Seq<([u8; 26], u64)>, key: Seq<u8>) -> bool {
    exists|i: int| 0 <= i < ht.len() && (#[trigger] ht[i]).0@ == key
}

/// A directory into which a sector was entered holds the key of that sector, and all
/// the keys it held before.
#[verifier::spinoff_prover]
pub proof fn lemma_entered_covers(ht: Seq<([u8; 26], u64)>, key: [u8; 26], base: u64, other: Seq<u8>)
    requires
        ht.len() > 0,
        ht[0].0@ == zeros(HASH_LEN as nat),
        has_key(ht, other) || other == key@,
    ensures
        has_key(entered(ht, key, base), other),
{
    let owner = owner_of(ht, key@);
    let grown = entered(ht, key, base);
    lemma_owner_among(ht, key@, ht.len() as int);
    if other == key@ {
        if ht[owner].0@ == key@ {
            assert(grown[owner].0@ == other);
        } else {
            assert(grown[owner + 1].0@ == other);
        }
    } else {
        let j = choose|j: int| 0 <= j < ht.len() && (#[trigger] ht[j]).0@ == other;
        if ht[owner].0@ == key@ {
            assert(grown[j].0@ == other);
        } else {
            if j <= owner {
                assert(grown[j].0@ == other);
            } else {
                assert(grown[j + 1].0@ == other);
            }
        }
    }
}

/// The index stays sound when a sound sector is entered into the directory.
#[verifier::spinoff_prover]
pub proof fn lemma_entered_index(image: Image, ht: Seq<([u8; 26], u64)>, key: [u8; 26], base: u64)
    requires
        image.index_ok(ht),
        image.index_sector_ok(key@, base),
    ensures
        image.index_ok(entered(ht, key, base)),
{
    let grown = entered(ht, key, base);
    lemma_entered_ascending(ht, key, base);
    assert forall|i: int| 0 <= i < grown.len() implies image.index_sector_ok(
        #[trigger] grown[i].0@,
        grown[i].1,
    ) by {
        if grown[i] != (key, base) {
            let j = choose|j: int| 0 <= j < ht.len() && ht[j] == grown[i];
            assert(image.index_sector_ok(ht[j].0@, ht[j].1));
        }
    }
}

/// The engine stays steady when a sound sector of the index is entered into the
/// directory.
#[verifier::spinoff_prover]
pub proof fn lemma_entered_steady(
    image: Image,
    chain: Seq<u64>,
    ht: Seq<([u8; 26], u64)>,
    values: Map<u64, u64>,
    delmap: Map<u64, u64>,
    key: [u8; 26],
    base: u64,
)
    requires
        steady(image, chain, ht, values, delmap),
        image.index_sector_ok(key@, base),
    ensures
        steady(image, chain, entered(ht, key, base), values, delmap),
{
    reveal(crate::upkeep::steady);
    let grown = entered(ht, key, base);
    lemma_entered_ascending(ht, key, base);
    assert forall|i: int| 0 <= i < grown.len() implies image.index_sector_ok(
        #[trigger] grown[i].0@,
        grown[i].1,
    ) by {
        if grown[i] != (key, base) {
            let j = choose|j: int| 0 <= j < ht.len() && ht[j] == grown[i];
            assert(image.index_sector_ok(ht[j].0@, ht[j].1));
        }
    }
}

} // verus!
