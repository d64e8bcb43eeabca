use vstd::prelude::*;
use crate::codec::encode_num;
use crate::codec::entry_bytes;
use crate::codec::entry_value_of;
use crate::codec::extract_value;
use crate::codec::get_slot;
use crate::codec::home_slot;
use crate::codec::lemma_entry_roundtrip;
use crate::codec::lemma_num_roundtrip;
use crate::codec::lemma_zero_entry;
use crate::codec::make_entry;
use crate::codec::num_bytes;
use crate::codec::zero_bytes;
use crate::codec::zeros;
use crate::digest::get_hash;
use crate::digest::key_hash;
use crate::frame::agree_except;
use crate::hashorder::entry_hash;
use crate::hashorder::find_owner;
use crate::hashorder::holds_hash;
use crate::hashorder::owner_of;
use crate::image::Image;
use crate::indexlaws::index_with;
use crate::indexlaws::index_without;
use crate::indexshape::lemma_never_stops;
use crate::indexshape::lemma_occupied_update;
use crate::indexshape::lemma_probe_next;
use crate::indexshape::lemma_stops_once;
use crate::indexshape::probe_slot;
use crate::indexshape::slot_offset;
use crate::layout::EARLY_SECTOR_PERCENT;
use crate::layout::FIRST_SLOT_OFFSET;
use crate::layout::is_sector_base;
use crate::layout::MAX_SECTOR_PERCENT;
use crate::layout::NO_VALUE;
use crate::layout::SECTOR_OCCUPANCY_OFFSET;
use crate::layout::SECTOR_SIZE;
use crate::layout::SLOT_SIZE;
use crate::layout::SLOTS_IN_SECTOR;
use crate::layout::VALUE_LIMIT;
use crate::split::same_log_header;
use crate::table::HashTable;
use crate::upkeep::lemma_loose_write;
use crate::upkeep::lemma_loosen;
use crate::upkeep::lemma_occupancy_cell;
use crate::upkeep::lemma_slot_cell;
use crate::upkeep::lemma_tighten;
use crate::upkeep::loose;
use crate::upkeep::steady;

verus! {

impl Image {
    /// Where the search for `hash` ends in the index: the file offset of the entry,
    /// and the value that the entry holds, 0 for an empty one.
    pub open spec fn seek_of(self, ht: Seq<([u8; 26], u64)>, hash: Seq<u8>) -> (u64, u64) {
        let base = ht[owner_of(ht, hash)].1;
        let slot = self.found_slot(base, hash);
        (slot_offset(base, slot) as u64, self.slot_value(base, slot))
    }

    /// The value that the index holds for `hash`, 0 where it holds none.
    pub open spec fn lookup(self, ht: Seq<([u8; 26], u64)>, hash: Seq<u8>) -> u64 {
        self.seek_of(ht, hash).1
    }
}

/// Whether a sector of the index that has come to hold `occupancy` entries is split,
/// `writes` entries having been taken since the last split: it is at least nine
/// tenths full, or at least four fifths full after half a sector of entries.
pub open spec fn splits(occupancy: int, writes: u64) -> bool {
    occupancy >= SLOTS_IN_SECTOR * MAX_SECTOR_PERCENT / 100 || (occupancy >= SLOTS_IN_SECTOR
        * EARLY_SECTOR_PERCENT / 100 && writes >= SLOTS_IN_SECTOR / 2)
}

impl HashTable {
    /// The truncated hash of `key` under the salt of this table.
    #[verifier::spinoff_prover]
    pub fn get_hash(&self, key: &Vec<u8>) -> (hash: [u8; 26])
        ensures
            hash@ == key_hash(self.memory().salt@, key@),
    {
        get_hash(&self.salt, key)
    }

    /// Searches the index for `hash`. Returns the file offset of the entry at which
    /// the search ends, and the value that the entry holds, 0 for an empty one.
    #[verifier::spinoff_prover]
    pub fn seek(&mut self, hash: [u8; 26]) -> (found: (u64, u64))
        requires
            old(self).wf(),
        ensures
            found == old(self).image().seek_of(old(self).memory().ht, hash@),
            found.1 == old(self).image().lookup(old(self).memory().ht, hash@),
            final(self).wf(),
            final(self).image() == old(self).image(),
            final(self).memory() == old(self).memory(),
            final(self).free_list() == old(self).free_list(),
    {
        self.seek_in(&hash)
    }

    /// The search of [`HashTable::seek`], for operations that are under way.
    #[verifier::spinoff_prover]
    pub(crate) fn seek_in(&mut self, hash: &[u8; 26]) -> (found: (u64, u64))
        requires
            old(self).tx.coherent(old(self).disk@),
            steady(
                old(self).image(),
                old(self).free_list(),
                old(self).ht_mapping@,
                old(self).values_mapping@,
                old(self).delmap_mapping@,
            ),
        ensures
            found == old(self).image().seek_of(old(self).ht_mapping@, hash@),
            final(self).tx.coherent(final(self).disk@),
            final(self).image() == old(self).image(),
            final(self).memory() == old(self).memory(),
            final(self).free_list() == old(self).free_list(),
            ({
                let base = old(self).ht_mapping@[owner_of(old(self).ht_mapping@, hash@)].1;
                let slot = old(self).image().found_slot(base, hash@);
                &&& 0 <= slot < SLOTS_IN_SECTOR
                &&& found.0 == slot_offset(base, slot)
            }),
    {
        proof {
            reveal(crate::upkeep::steady);
        }
        let (sector_offset, slot, value) = self.probe(hash);
        proof {
            lemma_slot_cell(self.image(), sector_offset, slot as int);
        }
        (sector_offset + slot * SLOT_SIZE + FIRST_SLOT_OFFSET, value)
    }

    /// Searches the index for `hash`. Returns the sector that owns the hash, the slot
    /// at which the search ends, and the value that the entry there holds.
    #[verifier::spinoff_prover]
    pub(crate) fn probe(&mut self, hash: &[u8; 26]) -> (found: (u64, u64, u64))
        requires
            old(self).tx.coherent(old(self).disk@),
            steady(
                old(self).image(),
                old(self).free_list(),
                old(self).ht_mapping@,
                old(self).values_mapping@,
                old(self).delmap_mapping@,
            ),
        ensures
            final(self).tx.coherent(final(self).disk@),
            final(self).image() == old(self).image(),
            final(self).memory() == old(self).memory(),
            final(self).free_list() == old(self).free_list(),
            found.0 == old(self).ht_mapping@[owner_of(old(self).ht_mapping@, hash@)].1,
            found.1 == old(self).image().found_slot(found.0, hash@),
            found.1 < SLOTS_IN_SECTOR,
            found.2 == old(self).image().slot_value(found.0, found.1 as int),
            old(self).image().has_sector(found.0),
            old(self).image().kind(found.0) == 1,
            old(self).image().occupancy(found.0) == old(self).image().occupied(
                found.0,
                SLOTS_IN_SECTOR as int,
            ),
    {
        proof {
            reveal(crate::upkeep::steady);
        }
        let home = get_slot(hash);
        let owner = find_owner(&self.ht_mapping, hash);
        let sector_offset = self.ht_mapping[owner].1;
        let ghost image = self.image();
        let mut slot = home;
        let mut probes: u64 = 0;
        proof {
            assert(image.index_sector_ok(self.ht_mapping@[owner as int].0@, sector_offset));
            lemma_probe_next(home, 0);
        }
        while probes < SLOTS_IN_SECTOR
            invariant
                0 <= probes <= SLOTS_IN_SECTOR,
                home == home_slot(hash@),
                home < SLOTS_IN_SECTOR,
                slot == probe_slot(home, probes as int),
                0 <= slot < SLOTS_IN_SECTOR,
                self.image() == image,
                image == old(self).image(),
                sector_offset == old(self).ht_mapping@[owner_of(old(self).ht_mapping@, hash@)].1,
                self.memory() == old(self).memory(),
                self.free_list() == old(self).free_list(),
                self.tx.coherent(self.disk@),
                image.sized(),
                image.conforming(),
                image.has_sector(sector_offset),
                image.kind(sector_offset) == 1,
                image.occupancy(sector_offset) == image.occupied(
                    sector_offset,
                    SLOTS_IN_SECTOR as int,
                ),
                forall|j: int|
                    0 <= j < probes ==> image.passes(
                        sector_offset,
                        hash@,
                        #[trigger] probe_slot(home, j),
                    ),
            decreases SLOTS_IN_SECTOR - probes,
        {
            proof {
                lemma_slot_cell(image, sector_offset, slot as int);
                lemma_probe_next(home, probes as int);
            }
            let offset = sector_offset + slot * SLOT_SIZE + FIRST_SLOT_OFFSET;
            let data = self.tx.get(&mut self.disk, offset, SLOT_SIZE);
            let value = extract_value(&data);
            if value == NO_VALUE || holds_hash(&data, hash) {
                proof {
                    assert(image.stops(sector_offset, hash@, home, probes as int));
                    lemma_stops_once(image, sector_offset, hash@, home, probes as int);
                }
                return (sector_offset, slot, value);
            }
            slot += 1;
            if slot >= SLOTS_IN_SECTOR {
                slot = 0;
            }
            probes += 1;
        }
        proof {
            lemma_never_stops(image, sector_offset, hash@, home);
            lemma_slot_cell(image, sector_offset, home as int);
            lemma_probe_next(home, 0);
        }
        let offset = sector_offset + home * SLOT_SIZE + FIRST_SLOT_OFFSET;
        let data = self.tx.get(&mut self.disk, offset, SLOT_SIZE);
        (sector_offset, home, extract_value(&data))
    }

    /// Looks up the value that the index holds for `key`.
    #[verifier::spinoff_prover]
    pub fn ht_get(&mut self, key: Vec<u8>) -> (value: Option<u64>)
        requires
            old(self).wf(),
        ensures
            value == match old(self).image().lookup(
                old(self).memory().ht,
                key_hash(old(self).memory().salt@, key@),
            ) {
                0 => None,
                held => Some(held),
            },
            final(self).wf(),
            final(self).image() == old(self).image(),
            final(self).memory() == old(self).memory(),
            final(self).free_list() == old(self).free_list(),
    {
        let hash = self.get_hash(&key);
        let (_offset, value) = self.seek(hash);
        if value != NO_VALUE {
            Some(value)
        } else {
            None
        }
    }
}

impl HashTable {
    /// Writes the entry for `hash` and `new_value` where the search for the hash
    /// ends. Returns the file offset of the entry and the value it held before, 0
    /// where it was empty; the occupancy of the sector is left as it was.
    #[verifier::spinoff_prover]
    pub(crate) fn place_entry(&mut self, hash: &[u8; 26], new_value: u64) -> (found: (u64, u64))
        requires
            old(self).tx.coherent(old(self).disk@),
            steady(
                old(self).image(),
                old(self).free_list(),
                old(self).ht_mapping@,
                old(self).values_mapping@,
                old(self).delmap_mapping@,
            ),
            0 < new_value < VALUE_LIMIT,
        ensures
            crate::sectorview::sectors_kept(old(self).image(), final(self).image()),
            crate::logview::log_kept(
                old(self).image(),
                final(self).image(),
                old(self).values_mapping@,
                old(self).delmap_mapping@,
            ),
            found == old(self).image().seek_of(old(self).ht_mapping@, hash@),
            final(self).tx.coherent(final(self).disk@),
            final(self).image() == old(self).image().put(found.0, entry_bytes(hash@, new_value)),
            same_log_header(old(self).image(), final(self).image()),
            final(self).memory() == old(self).memory(),
            final(self).free_list() == old(self).free_list(),
            ({
                let base = old(self).ht_mapping@[owner_of(old(self).ht_mapping@, hash@)].1;
                let slot = old(self).image().found_slot(base, hash@);
                &&& 0 <= slot < SLOTS_IN_SECTOR
                &&& found.0 == slot_offset(base, slot)
                &&& base <= found.0 < base + SECTOR_SIZE
                &&& crate::layout::is_sector_base(base)
                &&& loose(
                    final(self).image(),
                    final(self).free_list(),
                    final(self).ht_mapping@,
                    final(self).values_mapping@,
                    final(self).delmap_mapping@,
                    base,
                )
                &&& final(self).image().has_sector(base)
                &&& final(self).image().kind(base) == 1
                &&& final(self).image().occupancy(base) == old(self).image().occupancy(base)
                &&& final(self).image().occupied(base, SLOTS_IN_SECTOR as int)
                    == old(self).image().occupied(base, SLOTS_IN_SECTOR as int) + if found.1
                    == NO_VALUE {
                    1int
                } else {
                    0int
                }
                &&& old(self).image().occupancy(base) == old(self).image().occupied(
                    base,
                    SLOTS_IN_SECTOR as int,
                )
            }),
            crate::indexlaws::entered_at(
                old(self).image(),
                final(self).image(),
                old(self).ht_mapping@,
                hash@,
                new_value,
            ),
    {
        proof {
            reveal(crate::upkeep::steady);
        }
        let ghost image = self.image();
        let ghost ht = self.ht_mapping@;
        let ghost owner = owner_of(ht, hash@);
        let ghost base = ht[owner].1;
        let found = self.seek_in(hash);
        let data = make_entry(hash, new_value);
        proof {
            let slot = image.found_slot(base, hash@);
            crate::hashorder::lemma_owner_among(ht, hash@, ht.len() as int);
            assert(image.index_sector_ok(ht[owner].0@, base));
            lemma_slot_cell(image, base, slot);
            lemma_loosen(
                image,
                self.free_list(),
                ht,
                self.values_mapping@,
                self.delmap_mapping@,
                base,
            );
            lemma_loose_write(
                image,
                self.free_list(),
                ht,
                self.values_mapping@,
                self.delmap_mapping@,
                base,
                found.0,
                data@,
            );
            let after = image.put(found.0, data@);
            lemma_entry_roundtrip(hash@, new_value);
            assert forall|j: int| 0 <= j < SLOTS_IN_SECTOR && j != slot implies #[trigger] after.slot(
                base,
                j,
            ) == image.slot(base, j) by {
                assert(slot_offset(base, j) != slot_offset(base, slot));
            }
            lemma_occupied_update(image, after, base, SLOTS_IN_SECTOR as int, slot);
            assert(after.slot(base, slot) == data@);
            assert(after.read((base + 32) as u64, 8) == image.read((base + 32) as u64, 8));
            crate::frame::lemma_agree_same(image);
            crate::frame::lemma_agree_widen(
                image,
                image,
                Set::<u64>::empty(),
                crate::probing::sector_range(base),
            );
            crate::probing::lemma_put_in_sector(image, image, base, slot, data@);
            crate::indexlaws::lemma_same_index_but(image, after, ht, base);
        }
        self.tx.set(found.0, data);
        found
    }

    /// Files `new_value` under `hash`, without regard to how full the sector gets.
    #[verifier::spinoff_prover]
    pub(crate) fn insert_entry(&mut self, hash: &[u8; 26], new_value: u64) -> (old_value: u64)
        requires
            old(self).tx.coherent(old(self).disk@),
            steady(
                old(self).image(),
                old(self).free_list(),
                old(self).ht_mapping@,
                old(self).values_mapping@,
                old(self).delmap_mapping@,
            ),
            0 < new_value < VALUE_LIMIT,
        ensures
            crate::sectorview::sectors_kept(old(self).image(), final(self).image()),
            crate::logview::log_kept(
                old(self).image(),
                final(self).image(),
                old(self).values_mapping@,
                old(self).delmap_mapping@,
            ),
            old_value == old(self).image().lookup(old(self).ht_mapping@, hash@),
            same_log_header(old(self).image(), final(self).image()),
            final(self).tx.coherent(final(self).disk@),
            steady(
                final(self).image(),
                final(self).free_list(),
                final(self).ht_mapping@,
                final(self).values_mapping@,
                final(self).delmap_mapping@,
            ),
            final(self).memory() == old(self).memory(),
            final(self).free_list() == old(self).free_list(),
            crate::indexlaws::entered_at(
                old(self).image(),
                final(self).image(),
                old(self).ht_mapping@,
                hash@,
                new_value,
            ),
            final(self).image().occupied(
                crate::indexlaws::owner_base(old(self).ht_mapping@, hash@),
                SLOTS_IN_SECTOR as int,
            ) <= old(self).image().occupied(
                crate::indexlaws::owner_base(old(self).ht_mapping@, hash@),
                SLOTS_IN_SECTOR as int,
            ) + 1,
    {
        let (offset, old_value) = self.place_entry(hash, new_value);
        let ghost base = self.ht_mapping@[owner_of(self.ht_mapping@, hash@)].1;
        if old_value == NO_VALUE {
            let sector_offset = crate::layout::sector_start(offset);
            proof {
                crate::shape::lemma_in_sector(base, offset);
                lemma_occupancy_cell(self.image(), base);
                crate::indexshape::lemma_occupied_bounds(
                    old(self).image(),
                    base,
                    SLOTS_IN_SECTOR as int,
                );
            }
            let occ = self.tx.get_num(&mut self.disk, sector_offset + SECTOR_OCCUPANCY_OFFSET) + 1;
            proof {
                lemma_num_roundtrip(occ);
                lemma_loose_write(
                    self.image(),
                    self.free_list(),
                    self.ht_mapping@,
                    self.values_mapping@,
                    self.delmap_mapping@,
                    base,
                    (base + 32) as u64,
                    num_bytes(occ),
                );
                let before = self.image();
                let after = before.put((base + 32) as u64, num_bytes(occ));
                assert forall|j: int| 0 <= j < SLOTS_IN_SECTOR implies #[trigger] after.slot(base, j)
                    == before.slot(base, j) by {
                    assert(slot_offset(base, j) != base + 32);
                }
                crate::indexshape::lemma_occupied_frame(
                    before,
                    after,
                    base,
                    SLOTS_IN_SECTOR as int,
                );
                lemma_tighten(
                    after,
                    self.free_list(),
                    self.ht_mapping@,
                    self.values_mapping@,
                    self.delmap_mapping@,
                    base,
                );
                crate::indexlaws::lemma_entered_counted(
                    old(self).image(),
                    before,
                    after,
                    self.ht_mapping@,
                    hash@,
                    new_value,
                    num_bytes(occ),
                );
            }
            self.tx.set(sector_offset + SECTOR_OCCUPANCY_OFFSET, encode_num(occ));
        } else {
            proof {
                lemma_tighten(
                    self.image(),
                    self.free_list(),
                    self.ht_mapping@,
                    self.values_mapping@,
                    self.delmap_mapping@,
                    base,
                );
            }
        }
        old_value
    }
}

impl HashTable {
    /// Files `new_value` under `hash`. Returns the value that the index held for the
    /// hash before, if any. A sector of the index that gets too full is split.
    #[verifier::spinoff_prover]
    pub fn ht_set_with_hash(&mut self, hash: [u8; 26], new_value: u64) -> (old_value: Option<u64>)
        requires
            old(self).wf(),
            0 < new_value < VALUE_LIMIT,
        ensures
            crate::logview::log_kept(
                old(self).image(),
                final(self).image(),
                old(self).memory().values,
                old(self).memory().delmap,
            ),
            final(self).wf(),
            old_value == match old(self).image().lookup(old(self).memory().ht, hash@) {
                0 => None,
                held => Some(held),
            },
            same_log_header(old(self).image(), final(self).image()),
            final(self).memory().values == old(self).memory().values,
            final(self).memory().delmap == old(self).memory().delmap,
            final(self).memory().salt == old(self).memory().salt,
            final(self).memory().del_balance == old(self).memory().del_balance,
            final(self).memory().ht == old(self).memory().ht || crate::split::grown(
                old(self).memory().ht,
                final(self).memory().ht,
            ),
            index_with(
                old(self).image(),
                old(self).memory().ht,
                final(self).image(),
                final(self).memory().ht,
                hash@,
                new_value,
            ),
            old_value is Some ==> {
                &&& final(self).memory().ht == old(self).memory().ht
                &&& final(self).memory().writes_since_resize == old(self).memory().writes_since_resize
                &&& final(self).free_list() == old(self).free_list()
            },
            old_value is None && !splits(
                old(self).image().occupied(
                    crate::indexlaws::owner_base(old(self).memory().ht, hash@),
                    SLOTS_IN_SECTOR as int,
                ) + 1,
                old(self).memory().writes_since_resize,
            ) ==> {
                &&& final(self).memory().ht == old(self).memory().ht
                &&& final(self).memory().writes_since_resize == if old(self).memory().writes_since_resize
                    < u64::MAX {
                    (old(self).memory().writes_since_resize + 1) as u64
                } else {
                    u64::MAX
                }
                &&& final(self).free_list() == old(self).free_list()
            },
            old_value is None && splits(
                old(self).image().occupied(
                    crate::indexlaws::owner_base(old(self).memory().ht, hash@),
                    SLOTS_IN_SECTOR as int,
                ) + 1,
                old(self).memory().writes_since_resize,
            ) ==> {
                &&& crate::split::grown(old(self).memory().ht, final(self).memory().ht)
                &&& crate::resize::split_at_median(
                    old(self).image().put(
                        old(self).image().seek_of(old(self).memory().ht, hash@).0,
                        entry_bytes(hash@, new_value),
                    ),
                    old(self).memory().ht,
                    owner_of(old(self).memory().ht, hash@),
                    final(self).memory().ht,
                )
                &&& final(self).memory().writes_since_resize == 0
                &&& final(self).free_list() == crate::sectors::free_list_after_allocate(
                    old(self).free_list(),
                )
            },
    {
        proof {
            reveal(crate::upkeep::steady);
            reveal(Image::index_sound);
        }
        let ghost orig = self.image();
        let ghost ht = self.ht_mapping@;
        let ghost sound = orig.index_sound(ht);
        let ghost own = owner_of(ht, hash@);
        proof {
            crate::indexlaws::lemma_owner_range(ht, hash@);
        }
        let (offset, old_value) = self.place_entry(&hash, new_value);
        let ghost base = self.ht_mapping@[owner_of(self.ht_mapping@, hash@)].1;
        let ghost placed = self.image();
        proof {
            crate::accounting::lemma_accounted_kept(
                orig,
                placed,
                ht,
                self.values_mapping@,
                self.delmap_mapping@,
                0,
            );
        }
        if old_value == NO_VALUE {
            let sector_offset = crate::layout::sector_start(offset);
            proof {
                crate::shape::lemma_in_sector(base, offset);
                lemma_occupancy_cell(self.image(), base);
                crate::indexshape::lemma_occupied_bounds(
                    old(self).image(),
                    base,
                    SLOTS_IN_SECTOR as int,
                );
            }
            let occ = self.tx.get_num(&mut self.disk, sector_offset + SECTOR_OCCUPANCY_OFFSET) + 1;
            let resize = occ >= SLOTS_IN_SECTOR * MAX_SECTOR_PERCENT / 100 || (occ
                >= SLOTS_IN_SECTOR * EARLY_SECTOR_PERCENT / 100 && self.writes_since_resize
                >= SLOTS_IN_SECTOR / 2);
            if !resize {
                if self.writes_since_resize < u64::MAX {
                    self.writes_since_resize += 1;
                }
                self.count_entry(sector_offset, occ);
                proof {
                    crate::accounting::lemma_accounted_kept(
                        placed,
                        self.image(),
                        ht,
                        self.values_mapping@,
                        self.delmap_mapping@,
                        0,
                    );
                    if sound {
                        crate::indexlaws::lemma_entered_counted(
                            orig,
                            placed,
                            self.image(),
                            ht,
                            hash@,
                            new_value,
                            num_bytes(occ),
                        );
                        crate::indexlaws::lemma_insert_laws(orig, self.image(), ht, hash@, new_value);
                        assert(self.image().index_sound(ht)) by {
                            assert forall|i: int| 0 <= i < ht.len() implies self.image().occupied(
                                (#[trigger] ht[i]).1,
                                SLOTS_IN_SECTOR as int,
                            ) < crate::indexshape::SPLIT_OCCUPANCY by {}
                        }
                    }
                }
            } else {
                proof {
                    if sound {
                        assert(orig.occupied(base, SLOTS_IN_SECTOR as int)
                            < crate::indexshape::SPLIT_OCCUPANCY) by {
                            assert(orig.occupied(ht[own].1, SLOTS_IN_SECTOR as int)
                                < crate::indexshape::SPLIT_OCCUPANCY);
                        }
                        crate::indexlaws::lemma_insert_laws(orig, placed, ht, hash@, new_value);
                        assert(crate::resize::ready_to_split(placed, ht, own)) by {
                            assert forall|i: int| 0 <= i < ht.len() && i != own implies placed.occupied(
                                (#[trigger] ht[i]).1,
                                SLOTS_IN_SECTOR as int,
                            ) < crate::indexshape::SPLIT_OCCUPANCY by {
                                crate::indexlaws::lemma_index_directory(orig, ht);
                                crate::indexlaws::lemma_sectors_differ(orig, ht, i, own);
                            }
                        }
                    }
                }
                self.split_sector(sector_offset, Ghost(own));
            }
            None
        } else {
            proof {
                lemma_tighten(
                    self.image(),
                    self.free_list(),
                    self.ht_mapping@,
                    self.values_mapping@,
                    self.delmap_mapping@,
                    base,
                );
                if sound {
                    assert(orig.occupied(ht[own].1, SLOTS_IN_SECTOR as int)
                        < crate::indexshape::SPLIT_OCCUPANCY);
                    crate::indexlaws::lemma_insert_laws(orig, placed, ht, hash@, new_value);
                    assert(placed.index_sound(ht)) by {
                        assert forall|i: int| 0 <= i < ht.len() implies placed.occupied(
                            (#[trigger] ht[i]).1,
                            SLOTS_IN_SECTOR as int,
                        ) < crate::indexshape::SPLIT_OCCUPANCY by {}
                    }
                }
            }
            Some(old_value)
        }
    }

    /// Records `occ` as the occupancy of the index sector at `sector_offset`, which
    /// has that many entries in use.
    #[verifier::spinoff_prover]
    pub(crate) fn count_entry(&mut self, sector_offset: u64, occ: u64)
        requires
            old(self).tx.coherent(old(self).disk@),
            loose(
                old(self).image(),
                old(self).free_list(),
                old(self).ht_mapping@,
                old(self).values_mapping@,
                old(self).delmap_mapping@,
                sector_offset,
            ),
            old(self).image().has_sector(sector_offset),
            old(self).image().kind(sector_offset) == 1,
            occ == old(self).image().occupied(sector_offset, SLOTS_IN_SECTOR as int),
        ensures
            crate::sectorview::sectors_kept(old(self).image(), final(self).image()),
            crate::logview::log_kept(
                old(self).image(),
                final(self).image(),
                old(self).values_mapping@,
                old(self).delmap_mapping@,
            ),
            final(self).tx.coherent(final(self).disk@),
            steady(
                final(self).image(),
                final(self).free_list(),
                final(self).ht_mapping@,
                final(self).values_mapping@,
                final(self).delmap_mapping@,
            ),
            same_log_header(old(self).image(), final(self).image()),
            final(self).image() == old(self).image().put_num((sector_offset + 32) as u64, occ),
            final(self).memory() == old(self).memory(),
            final(self).free_list() == old(self).free_list(),
    {
        proof {
            let base = sector_offset;
            lemma_occupancy_cell(self.image(), base);
            lemma_num_roundtrip(occ);
            lemma_loose_write(
                self.image(),
                self.free_list(),
                self.ht_mapping@,
                self.values_mapping@,
                self.delmap_mapping@,
                base,
                (base + 32) as u64,
                num_bytes(occ),
            );
            let before = self.image();
            let after = before.put((base + 32) as u64, num_bytes(occ));
            assert forall|j: int| 0 <= j < SLOTS_IN_SECTOR implies #[trigger] after.slot(base, j)
                == before.slot(base, j) by {
                assert(slot_offset(base, j) != base + 32);
            }
            crate::indexshape::lemma_occupied_frame(before, after, base, SLOTS_IN_SECTOR as int);
            lemma_tighten(
                after,
                self.free_list(),
                self.ht_mapping@,
                self.values_mapping@,
                self.delmap_mapping@,
                base,
            );
        }
        self.tx.set(sector_offset + SECTOR_OCCUPANCY_OFFSET, encode_num(occ));
    }

    /// Splits the index sector at `sector_offset`: takes its entries out, opens a new
    /// sector keyed by the median of their hashes, and files them again, each in the
    /// sector that now owns its hash.
    #[verifier::spinoff_prover]
    pub(crate) fn split_sector(&mut self, sector_offset: u64, Ghost(own): Ghost<int>)
        requires
            old(self).tx.coherent(old(self).disk@),
            loose(
                old(self).image(),
                old(self).free_list(),
                old(self).ht_mapping@,
                old(self).values_mapping@,
                old(self).delmap_mapping@,
                sector_offset,
            ),
            old(self).image().has_sector(sector_offset),
            old(self).image().kind(sector_offset) == 1,
            old(self).image().occupied(sector_offset, SLOTS_IN_SECTOR as int) > 0,
            0 <= own < old(self).ht_mapping@.len(),
            old(self).ht_mapping@[own].1 == sector_offset,
        ensures
            crate::logview::log_kept(
                old(self).image(),
                final(self).image(),
                old(self).values_mapping@,
                old(self).delmap_mapping@,
            ),
            final(self).tx.coherent(final(self).disk@),
            steady(
                final(self).image(),
                final(self).free_list(),
                final(self).ht_mapping@,
                final(self).values_mapping@,
                final(self).delmap_mapping@,
            ),
            same_log_header(old(self).image(), final(self).image()),
            final(self).values_mapping@ == old(self).values_mapping@,
            final(self).delmap_mapping@ == old(self).delmap_mapping@,
            final(self).salt == old(self).salt,
            final(self).del_balance == old(self).del_balance,
            final(self).writes_since_resize == 0,
            final(self).free_list() == crate::sectors::free_list_after_allocate(
                old(self).free_list(),
            ),
            crate::split::grown(old(self).ht_mapping@, final(self).ht_mapping@),
            crate::resize::ready_to_split(old(self).image(), old(self).ht_mapping@, own)
                && old(self).image().accounted(
                old(self).ht_mapping@,
                old(self).values_mapping@,
                old(self).delmap_mapping@,
            ) ==> final(self).image().accounted(
                final(self).ht_mapping@,
                final(self).values_mapping@,
                final(self).delmap_mapping@,
            ),
            crate::resize::ready_to_split(old(self).image(), old(self).ht_mapping@, own) ==> {
                &&& crate::resize::split_at_median(
                    old(self).image(),
                    old(self).ht_mapping@,
                    own,
                    final(self).ht_mapping@,
                )
                &&& final(self).image().index_sound(final(self).ht_mapping@)
                &&& final(self).ht_mapping@ == old(self).ht_mapping@.insert(
                    own + 1,
                    final(self).ht_mapping@[own + 1],
                )
                &&& forall|hash: Seq<u8>|
                    #[trigger] final(self).image().lookup(final(self).ht_mapping@, hash) == old(
                        self,
                    ).image().lookup(old(self).ht_mapping@, hash)
            },
    {
        proof {
            reveal(crate::upkeep::steady);
        }
        let ghost orig = self.image();
        let ghost ht = self.ht_mapping@;
        let ghost ready = crate::resize::ready_to_split(orig, ht, own);
        let ghost acc = ready && orig.accounted(ht, self.values_mapping@, self.delmap_mapping@);
        let (mut pairs, Ghost(slots)) = self.drain_sector(sector_offset);
        let ghost drained = pairs@;
        let ghost emptied = self.image();
        crate::split::sort_pairs(&mut pairs);
        proof {
            drained.to_multiset_ensures();
            pairs@.to_multiset_ensures();
            assert forall|i: int| 0 <= i < pairs@.len() implies 0 < (#[trigger] pairs@[i]).1
                < VALUE_LIMIT by {
                assert(pairs@.contains(pairs@[i]));
                assert(pairs@.to_multiset().count(pairs@[i]) > 0);
                assert(drained.to_multiset().count(pairs@[i]) > 0);
                assert(drained.contains(pairs@[i]));
                let j = choose|j: int| 0 <= j < drained.len() && drained[j] == pairs@[i];
                assert(0 < drained[j].1 < VALUE_LIMIT);
            }
            if ready {
                assert(orig.sector_fit(ht, ht[own].1));
                crate::resize::lemma_drained_distinct(orig, sector_offset, drained, slots);
                crate::resize::lemma_sorted_distinct(orig, sector_offset, drained, pairs@);
                crate::indexlaws::lemma_same_index_but(orig, emptied, ht, sector_offset);
            }
            if acc {
                crate::accounting::lemma_accounted_kept(
                    orig,
                    emptied,
                    ht,
                    self.values_mapping@,
                    self.delmap_mapping@,
                    0,
                );
            }
        }
        let median_hash = pairs[pairs.len() / 2].0;
        let new_sector = self.open_index_sector(&median_hash);
        let ghost start = self.image();
        self.enter_sector(median_hash, new_sector);
        let ghost after = self.ht_mapping@;
        proof {
            assert(crate::split::entered(ht, median_hash, new_sector) == after);
            if ready {
                assert(orig.same_index_but(start, ht, sector_offset)) by {
                    assert forall|i: int, j: int|
                        0 <= i < ht.len() && (#[trigger] ht[i]).1 != sector_offset && 0 <= j
                            < SLOTS_IN_SECTOR implies #[trigger] start.slot(ht[i].1, j)
                        == orig.slot(ht[i].1, j) by {
                        assert(emptied.slot(ht[i].1, j) == orig.slot(ht[i].1, j));
                    }
                }
                assert forall|j: int| 0 <= j < SLOTS_IN_SECTOR implies #[trigger] start.slot(
                    ht[own].1,
                    j,
                ) == crate::codec::zeros(32) by {
                    assert(emptied.slot(ht[own].1, j) == crate::codec::zeros(32));
                }
                crate::resize::lemma_split_start(orig, ht, start, pairs@, own, new_sector);
                if acc {
                    crate::accounting::lemma_accounted_index(
                        start,
                        ht,
                        self.values_mapping@,
                        self.delmap_mapping@,
                        new_sector,
                        own + 1,
                        median_hash,
                    );
                }
                crate::resize::lemma_refill_none(
                    orig,
                    ht,
                    start,
                    after,
                    pairs@,
                    sector_offset,
                    new_sector,
                );
            }
        }
        let mut i: usize = 0;
        while i < pairs.len()
            invariant
                0 <= i <= pairs@.len(),
                crate::split::storable(pairs@),
                self.tx.coherent(self.disk@),
                steady(
                    self.image(),
                    self.free_list(),
                    self.ht_mapping@,
                    self.values_mapping@,
                    self.delmap_mapping@,
                ),
                same_log_header(old(self).image(), self.image()),
                self.values_mapping@ == old(self).values_mapping@,
                self.delmap_mapping@ == old(self).delmap_mapping@,
                self.salt == old(self).salt,
                self.del_balance == old(self).del_balance,
                self.ht_mapping@ == after,
                self.free_list() == crate::sectors::free_list_after_allocate(
                    old(self).free_list(),
                ),
                crate::split::grown(ht, after),
                acc ==> self.image().accounted(after, self.values_mapping@, self.delmap_mapping@),
                crate::logview::log_kept(
                    orig,
                    self.image(),
                    self.values_mapping@,
                    self.delmap_mapping@,
                ),
                ready ==> {
                    &&& crate::resize::split_started(
                        orig,
                        ht,
                        start,
                        after,
                        pairs@,
                        sector_offset,
                        new_sector,
                    )
                    &&& crate::resize::refilled(
                        start,
                        self.image(),
                        after,
                        pairs@,
                        i as int,
                        sector_offset,
                        new_sector,
                    )
                    &&& crate::resize::distinct_hashes(pairs@)
                    &&& pairs@.len() <= crate::indexshape::SPLIT_OCCUPANCY
                },
            decreases pairs@.len() - i,
        {
            let ghost now = self.image();
            self.insert_entry(&pairs[i].0, pairs[i].1);
            proof {
                if acc {
                    crate::accounting::lemma_accounted_kept(
                        now,
                        self.image(),
                        after,
                        self.values_mapping@,
                        self.delmap_mapping@,
                        0,
                    );
                }
                if ready {
                    crate::resize::lemma_refill_step(
                        orig,
                        ht,
                        start,
                        now,
                        self.image(),
                        after,
                        pairs@,
                        i as int,
                        sector_offset,
                        new_sector,
                    );
                }
            }
            i += 1;
        }
        proof {
            if ready {
                crate::indexlaws::lemma_index_directory(self.image(), after);
                assert(crate::indexlaws::directory_ok(orig, ht));
                crate::resize::lemma_split_done(
                    orig,
                    ht,
                    start,
                    self.image(),
                    after,
                    pairs@,
                    own,
                    new_sector,
                );
                assert(crate::resize::split_at_median(orig, ht, own, after)) by {
                    assert(ht.insert(own + 1, (crate::resize::median(pairs@), new_sector)) == after);
                }
            }
        }
        self.writes_since_resize = 0;
    }

    /// Files `new_value` under `key` in the index.
    #[verifier::spinoff_prover]
    pub fn ht_set(&mut self, key: Vec<u8>, new_value: u64)
        requires
            old(self).wf(),
            0 < new_value < VALUE_LIMIT,
        ensures
            crate::logview::log_kept(
                old(self).image(),
                final(self).image(),
                old(self).memory().values,
                old(self).memory().delmap,
            ),
            final(self).wf(),
            same_log_header(old(self).image(), final(self).image()),
            final(self).memory().values == old(self).memory().values,
            final(self).memory().delmap == old(self).memory().delmap,
            final(self).memory().salt == old(self).memory().salt,
            final(self).memory().del_balance == old(self).memory().del_balance,
            final(self).memory().ht == old(self).memory().ht || crate::split::grown(
                old(self).memory().ht,
                final(self).memory().ht,
            ),
            index_with(
                old(self).image(),
                old(self).memory().ht,
                final(self).image(),
                final(self).memory().ht,
                key_hash(old(self).memory().salt@, key@),
                new_value,
            ),
            old(self).image().lookup(
                old(self).memory().ht,
                key_hash(old(self).memory().salt@, key@),
            ) != NO_VALUE ==> {
                &&& final(self).memory().ht == old(self).memory().ht
                &&& final(self).memory().writes_since_resize == old(self).memory().writes_since_resize
                &&& final(self).free_list() == old(self).free_list()
            },
            old(self).image().lookup(
                old(self).memory().ht,
                key_hash(old(self).memory().salt@, key@),
            ) == NO_VALUE && !splits(
                old(self).image().occupied(
                    crate::indexlaws::owner_base(old(self).memory().ht, key_hash(old(self).memory().salt@, key@)),
                    SLOTS_IN_SECTOR as int,
                ) + 1,
                old(self).memory().writes_since_resize,
            ) ==> {
                &&& final(self).memory().ht == old(self).memory().ht
                &&& final(self).memory().writes_since_resize == if old(self).memory().writes_since_resize
                    < u64::MAX {
                    (old(self).memory().writes_since_resize + 1) as u64
                } else {
                    u64::MAX
                }
                &&& final(self).free_list() == old(self).free_list()
            },
            old(self).image().lookup(
                old(self).memory().ht,
                key_hash(old(self).memory().salt@, key@),
            ) == NO_VALUE && splits(
                old(self).image().occupied(
                    crate::indexlaws::owner_base(old(self).memory().ht, key_hash(old(self).memory().salt@, key@)),
                    SLOTS_IN_SECTOR as int,
                ) + 1,
                old(self).memory().writes_since_resize,
            ) ==> {
                &&& crate::split::grown(old(self).memory().ht, final(self).memory().ht)
                &&& final(self).memory().writes_since_resize == 0
                &&& final(self).free_list() == crate::sectors::free_list_after_allocate(
                    old(self).free_list(),
                )
            },
    {
        let hash = self.get_hash(&key);
        self.ht_set_with_hash(hash, new_value);
    }
}

impl HashTable {
    /// Takes `hash` out of the index. The entries that follow the vacated one, up to
    /// the next empty entry, move up where the search for them would otherwise end
    /// at the gap.
    #[verifier::spinoff_prover]
    pub fn ht_delete_with_hash(&mut self, hash: [u8; 26])
        requires
            old(self).wf(),
        ensures
            crate::sectorview::sectors_kept(old(self).image(), final(self).image()),
            crate::logview::log_kept(
                old(self).image(),
                final(self).image(),
                old(self).memory().values,
                old(self).memory().delmap,
            ),
            final(self).wf(),
            old(self).image().lookup(old(self).memory().ht, hash@) == NO_VALUE
                ==> final(self).image() == old(self).image(),
            same_log_header(old(self).image(), final(self).image()),
            final(self).memory() == old(self).memory(),
            final(self).free_list() == old(self).free_list(),
            index_without(old(self).image(), final(self).image(), old(self).memory().ht, hash@),
    {
        self.delete_entry(&hash);
        proof {
            crate::accounting::lemma_accounted_kept(
                old(self).image(),
                self.image(),
                self.ht_mapping@,
                self.values_mapping@,
                self.delmap_mapping@,
                0,
            );
        }
    }

    /// Takes `hash` out of the index, as [`HashTable::ht_delete_with_hash`] does, for
    /// operations that are under way.
    #[verifier::spinoff_prover]
    pub(crate) fn delete_entry(&mut self, hash: &[u8; 26])
        requires
            old(self).tx.coherent(old(self).disk@),
            steady(
                old(self).image(),
                old(self).free_list(),
                old(self).ht_mapping@,
                old(self).values_mapping@,
                old(self).delmap_mapping@,
            ),
        ensures
            crate::sectorview::sectors_kept(old(self).image(), final(self).image()),
            crate::logview::log_kept(
                old(self).image(),
                final(self).image(),
                old(self).values_mapping@,
                old(self).delmap_mapping@,
            ),
            final(self).tx.coherent(final(self).disk@),
            steady(
                final(self).image(),
                final(self).free_list(),
                final(self).ht_mapping@,
                final(self).values_mapping@,
                final(self).delmap_mapping@,
            ),
            old(self).image().lookup(old(self).ht_mapping@, hash@) == NO_VALUE
                ==> final(self).image() == old(self).image(),
            same_log_header(old(self).image(), final(self).image()),
            final(self).memory() == old(self).memory(),
            final(self).free_list() == old(self).free_list(),
            old(self).image().index_sound(old(self).ht_mapping@) ==> index_without(
                old(self).image(),
                final(self).image(),
                old(self).ht_mapping@,
                hash@,
            ),
    {
        proof {
            reveal(crate::upkeep::steady);
            reveal(Image::index_sound);
        }
        let ghost before = self.image();
        let (sector_offset, target_slot, old_value) = self.probe(hash);
        if old_value != NO_VALUE {
            proof {
                if before.index_sound(self.ht_mapping@) {
                    let owner = owner_of(self.ht_mapping@, hash@);
                    crate::hashorder::lemma_owner_among(
                        self.ht_mapping@,
                        hash@,
                        self.ht_mapping@.len() as int,
                    );
                    assert(before.sector_fit(self.ht_mapping@, self.ht_mapping@[owner].1));
                    crate::probing::lemma_room(before, sector_offset);
                }
                lemma_loosen(
                    self.image(),
                    self.free_list(),
                    self.ht_mapping@,
                    self.values_mapping@,
                    self.delmap_mapping@,
                    sector_offset,
                );
            }
            self.close_gap(sector_offset, target_slot);
            proof {
                if before.index_sound(self.ht_mapping@) {
                    crate::upkeep::lemma_steady_cells(
                        self.image(),
                        self.free_list(),
                        self.ht_mapping@,
                        self.values_mapping@,
                        self.delmap_mapping@,
                    );
                    crate::indexlaws::lemma_delete_laws(
                        before,
                        self.image(),
                        self.ht_mapping@,
                        hash@,
                    );
                }
            }
        }
    }

    /// Reads entry `slot` of the index sector at `sector_offset`.
    #[verifier::spinoff_prover]
    pub(crate) fn read_slot(&mut self, sector_offset: u64, slot: u64) -> (data: Vec<u8>)
        requires
            old(self).tx.coherent(old(self).disk@),
            loose(
                old(self).image(),
                old(self).free_list(),
                old(self).ht_mapping@,
                old(self).values_mapping@,
                old(self).delmap_mapping@,
                sector_offset,
            ),
            old(self).image().has_sector(sector_offset),
            old(self).image().kind(sector_offset) == 1,
            slot < SLOTS_IN_SECTOR,
        ensures
            data@ == old(self).image().slot(sector_offset, slot as int),
            data@.len() == 32,
            final(self).tx.coherent(final(self).disk@),
            final(self).image() == old(self).image(),
            final(self).memory() == old(self).memory(),
            final(self).free_list() == old(self).free_list(),
    {
        proof {
            lemma_slot_cell(self.image(), sector_offset, slot as int);
        }
        self.tx.get(
            &mut self.disk,
            sector_offset + slot * SLOT_SIZE + FIRST_SLOT_OFFSET,
            SLOT_SIZE,
        )
    }

    /// Writes `data` as entry `slot` of the index sector at `sector_offset`.
    #[verifier::spinoff_prover]
    pub(crate) fn write_slot(&mut self, sector_offset: u64, slot: u64, data: Vec<u8>)
        requires
            old(self).tx.coherent(old(self).disk@),
            loose(
                old(self).image(),
                old(self).free_list(),
                old(self).ht_mapping@,
                old(self).values_mapping@,
                old(self).delmap_mapping@,
                sector_offset,
            ),
            old(self).image().has_sector(sector_offset),
            old(self).image().kind(sector_offset) == 1,
            slot < SLOTS_IN_SECTOR,
            data@.len() == 32,
        ensures
            crate::sectorview::sectors_kept(old(self).image(), final(self).image()),
            crate::logview::log_kept(
                old(self).image(),
                final(self).image(),
                old(self).values_mapping@,
                old(self).delmap_mapping@,
            ),
            final(self).tx.coherent(final(self).disk@),
            loose(
                final(self).image(),
                final(self).free_list(),
                final(self).ht_mapping@,
                final(self).values_mapping@,
                final(self).delmap_mapping@,
                sector_offset,
            ),
            final(self).image().has_sector(sector_offset),
            final(self).image().kind(sector_offset) == 1,
            final(self).image() == old(self).image().put(
                slot_offset(sector_offset, slot as int) as u64,
                data@,
            ),
            crate::probing::same_slots_but(
                old(self).image(),
                final(self).image(),
                sector_offset,
                slot as int,
            ),
            final(self).image().slot(sector_offset, slot as int) == data@,
            final(self).image().occupancy(sector_offset) == old(self).image().occupancy(
                sector_offset,
            ),
            final(self).image().occupied(sector_offset, SLOTS_IN_SECTOR as int)
                == old(self).image().occupied(sector_offset, SLOTS_IN_SECTOR as int)
                    + (if entry_value_of(data@)
                != NO_VALUE {
                1int
            } else {
                0int
            }) - (if old(self).image().slot_value(sector_offset, slot as int) != NO_VALUE {
                1int
            } else {
                0int
            }),
            same_log_header(old(self).image(), final(self).image()),
            final(self).memory() == old(self).memory(),
            final(self).free_list() == old(self).free_list(),
    {
        let ghost before = self.image();
        let at = sector_offset + slot * SLOT_SIZE + FIRST_SLOT_OFFSET;
        proof {
            lemma_slot_cell(before, sector_offset, slot as int);
            lemma_loose_write(
                before,
                self.free_list(),
                self.ht_mapping@,
                self.values_mapping@,
                self.delmap_mapping@,
                sector_offset,
                at,
                data@,
            );
            let after = before.put(at, data@);
            assert forall|j: int| 0 <= j < SLOTS_IN_SECTOR && j != slot implies #[trigger] after.slot(
                sector_offset,
                j,
            ) == before.slot(sector_offset, j) by {
                assert(slot_offset(sector_offset, j) != at);
            }
            lemma_occupied_update(
                before,
                after,
                sector_offset,
                SLOTS_IN_SECTOR as int,
                slot as int,
            );
            assert(after.slot(sector_offset, slot as int) == data@);
            assert(after.read((sector_offset + 32) as u64, 8) == before.read(
                (sector_offset + 32) as u64,
                8,
            ));
        }
        self.tx.set(at, data);
    }

    /// Vacates entry `target_slot` of the index sector at `sector_offset`, which is
    /// in use, and moves the entries behind it up as far as the search for them asks.
    #[verifier::spinoff_prover]
    #[verifier::rlimit(60)]
    pub(crate) fn close_gap(&mut self, sector_offset: u64, target_slot: u64)
        requires
            old(self).tx.coherent(old(self).disk@),
            loose(
                old(self).image(),
                old(self).free_list(),
                old(self).ht_mapping@,
                old(self).values_mapping@,
                old(self).delmap_mapping@,
                sector_offset,
            ),
            old(self).image().has_sector(sector_offset),
            old(self).image().kind(sector_offset) == 1,
            old(self).image().occupancy(sector_offset) == old(self).image().occupied(
                sector_offset,
                SLOTS_IN_SECTOR as int,
            ),
            target_slot < SLOTS_IN_SECTOR,
            old(self).image().slot_value(sector_offset, target_slot as int) != NO_VALUE,
        ensures
            crate::sectorview::sectors_kept(old(self).image(), final(self).image()),
            crate::logview::log_kept(
                old(self).image(),
                final(self).image(),
                old(self).values_mapping@,
                old(self).delmap_mapping@,
            ),
            final(self).tx.coherent(final(self).disk@),
            steady(
                final(self).image(),
                final(self).free_list(),
                final(self).ht_mapping@,
                final(self).values_mapping@,
                final(self).delmap_mapping@,
            ),
            same_log_header(old(self).image(), final(self).image()),
            final(self).memory() == old(self).memory(),
            final(self).free_list() == old(self).free_list(),
            final(self).image().occupied(sector_offset, SLOTS_IN_SECTOR as int)
                == old(self).image().occupied(sector_offset, SLOTS_IN_SECTOR as int) - 1,
            agree_except(
                old(self).image(),
                final(self).image(),
                crate::probing::sector_range(sector_offset),
            ),
            old(self).image().searchable(sector_offset) && old(self).image().has_room(
                sector_offset,
            ) ==> crate::gapclose::gap_closed(
                old(self).image(),
                final(self).image(),
                sector_offset,
                target_slot as int,
            ),
    {
        let ghost orig = self.image();
        let ghost sound = orig.searchable(sector_offset) && orig.has_room(sector_offset);
        proof {
            crate::indexshape::lemma_occupied_positive(
                orig,
                sector_offset,
                SLOTS_IN_SECTOR as int,
                target_slot as int,
            );
        }
        self.uncount_entry(sector_offset);
        let mut target = target_slot;
        let mut cur = target_slot;
        let mut steps: u64 = 1;
        let mut ended = false;
        proof {
            if sound {
                crate::gapclose::lemma_gap_init(
                    orig,
                    self.image(),
                    sector_offset,
                    target_slot as int,
                );
            }
        }
        while steps < SLOTS_IN_SECTOR && !ended
            invariant
                1 <= steps <= SLOTS_IN_SECTOR,
                target < SLOTS_IN_SECTOR,
                cur < SLOTS_IN_SECTOR,
                target_slot < SLOTS_IN_SECTOR,
                orig == old(self).image(),
                sound == (orig.searchable(sector_offset) && orig.has_room(sector_offset)),
                self.tx.coherent(self.disk@),
                loose(
                    self.image(),
                    self.free_list(),
                    self.ht_mapping@,
                    self.values_mapping@,
                    self.delmap_mapping@,
                    sector_offset,
                ),
                self.image().has_sector(sector_offset),
                self.image().kind(sector_offset) == 1,
                same_log_header(orig, self.image()),
                agree_except(orig, self.image(), crate::probing::sector_range(sector_offset)),
                crate::sectorview::sectors_kept(orig, self.image()),
                crate::logview::log_kept(
                    orig,
                    self.image(),
                    self.values_mapping@,
                    self.delmap_mapping@,
                ),
                self.memory() == old(self).memory(),
                self.free_list() == old(self).free_list(),
                self.image().occupancy(sector_offset) == orig.occupied(
                    sector_offset,
                    SLOTS_IN_SECTOR as int,
                ) - 1,
                self.image().occupied(sector_offset, SLOTS_IN_SECTOR as int) == orig.occupied(
                    sector_offset,
                    SLOTS_IN_SECTOR as int,
                ),
                self.image().slot_value(sector_offset, target as int) != NO_VALUE,
                crate::probing::dist(target_slot as int, cur as int) == if ended {
                    steps as int
                } else {
                    steps - 1
                },
                ended ==> self.image().slot_value(sector_offset, cur as int) == NO_VALUE,
                sound ==> crate::gapclose::gap_inv(
                    orig,
                    self.image(),
                    sector_offset,
                    target_slot as int,
                    target as int,
                    steps as int,
                ),
            decreases SLOTS_IN_SECTOR - steps + if ended { 0int } else { 1int },
        {
            cur += 1;
            if cur >= SLOTS_IN_SECTOR {
                cur = 0;
            }
            let data = self.read_slot(sector_offset, cur);
            if extract_value(&data) == NO_VALUE {
                ended = true;
            } else {
                let ghost now = self.image();
                let desired = get_slot(&entry_hash(&data));
                let adjusted_cur = if cur < desired {
                    cur + SLOTS_IN_SECTOR
                } else {
                    cur
                };
                let adjusted_target = if target < desired {
                    target + SLOTS_IN_SECTOR
                } else {
                    target
                };
                if adjusted_cur > adjusted_target {
                    self.write_slot(sector_offset, target, data);
                    proof {
                        if sound {
                            crate::gapclose::lemma_gap_move(
                                orig,
                                now,
                                self.image(),
                                sector_offset,
                                target_slot as int,
                                target as int,
                                steps as int,
                                cur as int,
                            );
                        }
                        crate::probing::lemma_put_in_sector(
                            orig,
                            now,
                            sector_offset,
                            target as int,
                            now.slot(sector_offset, cur as int),
                        );
                        assert(cur != target);
                    }
                    target = cur;
                } else {
                    proof {
                        if sound {
                            crate::gapclose::lemma_gap_keep(
                                orig,
                                now,
                                sector_offset,
                                target_slot as int,
                                target as int,
                                steps as int,
                                cur as int,
                            );
                        }
                    }
                }
                steps += 1;
            }
        }
        let ghost now = self.image();
        self.write_slot(sector_offset, target, zero_bytes(SLOT_SIZE as usize));
        proof {
            lemma_zero_entry();
            crate::probing::lemma_put_in_sector(
                orig,
                now,
                sector_offset,
                target as int,
                zeros(32),
            );
            if sound {
                crate::gapclose::lemma_gap_done(
                    orig,
                    now,
                    self.image(),
                    sector_offset,
                    target_slot as int,
                    target as int,
                    steps as int,
                    cur as int,
                );
            }
            lemma_tighten(
                self.image(),
                self.free_list(),
                self.ht_mapping@,
                self.values_mapping@,
                self.delmap_mapping@,
                sector_offset,
            );
        }
    }

    /// Lowers the occupancy that the index sector at `sector_offset` records by one.
    #[verifier::spinoff_prover]
    pub(crate) fn uncount_entry(&mut self, sector_offset: u64)
        requires
            old(self).tx.coherent(old(self).disk@),
            loose(
                old(self).image(),
                old(self).free_list(),
                old(self).ht_mapping@,
                old(self).values_mapping@,
                old(self).delmap_mapping@,
                sector_offset,
            ),
            old(self).image().has_sector(sector_offset),
            old(self).image().kind(sector_offset) == 1,
            old(self).image().occupancy(sector_offset) >= 1,
        ensures
            crate::sectorview::sectors_kept(old(self).image(), final(self).image()),
            crate::logview::log_kept(
                old(self).image(),
                final(self).image(),
                old(self).values_mapping@,
                old(self).delmap_mapping@,
            ),
            final(self).tx.coherent(final(self).disk@),
            loose(
                final(self).image(),
                final(self).free_list(),
                final(self).ht_mapping@,
                final(self).values_mapping@,
                final(self).delmap_mapping@,
                sector_offset,
            ),
            final(self).image().has_sector(sector_offset),
            final(self).image().kind(sector_offset) == 1,
            final(self).image().occupancy(sector_offset) == old(self).image().occupancy(
                sector_offset,
            ) - 1,
            final(self).image().occupied(sector_offset, SLOTS_IN_SECTOR as int)
                == old(self).image().occupied(sector_offset, SLOTS_IN_SECTOR as int),
            forall|j: int|
                0 <= j < SLOTS_IN_SECTOR ==> #[trigger] final(self).image().slot(sector_offset, j)
                    == old(self).image().slot(sector_offset, j),
            same_log_header(old(self).image(), final(self).image()),
            agree_except(
                old(self).image(),
                final(self).image(),
                crate::probing::sector_range(sector_offset),
            ),
            final(self).memory() == old(self).memory(),
            final(self).free_list() == old(self).free_list(),
    {
        let ghost start = self.image();
        proof {
            lemma_occupancy_cell(start, sector_offset);
        }
        let occ = self.tx.get_num(&mut self.disk, sector_offset + SECTOR_OCCUPANCY_OFFSET) - 1;
        proof {
            lemma_num_roundtrip(occ);
            lemma_loose_write(
                start,
                self.free_list(),
                self.ht_mapping@,
                self.values_mapping@,
                self.delmap_mapping@,
                sector_offset,
                (sector_offset + 32) as u64,
                num_bytes(occ),
            );
            let after = start.put((sector_offset + 32) as u64, num_bytes(occ));
            assert forall|j: int| 0 <= j < SLOTS_IN_SECTOR implies #[trigger] after.slot(
                sector_offset,
                j,
            ) == start.slot(sector_offset, j) by {
                assert(slot_offset(sector_offset, j) != sector_offset + 32);
            }
            crate::indexshape::lemma_occupied_frame(
                start,
                after,
                sector_offset,
                SLOTS_IN_SECTOR as int,
            );
            crate::frame::lemma_agree_put(start, (sector_offset + 32) as u64, num_bytes(occ));
            crate::frame::lemma_agree_widen(
                start,
                after,
                set![(sector_offset + 32) as u64],
                crate::probing::sector_range(sector_offset),
            );
        }
        self.tx.set(sector_offset + SECTOR_OCCUPANCY_OFFSET, encode_num(occ));
    }

    /// Takes `key` out of the index.
    #[verifier::spinoff_prover]
    pub fn ht_delete(&mut self, key: Vec<u8>)
        requires
            old(self).wf(),
        ensures
            crate::sectorview::sectors_kept(old(self).image(), final(self).image()),
            crate::logview::log_kept(
                old(self).image(),
                final(self).image(),
                old(self).memory().values,
                old(self).memory().delmap,
            ),
            final(self).wf(),
            old(self).image().lookup(
                old(self).memory().ht,
                key_hash(old(self).memory().salt@, key@),
            ) == NO_VALUE ==> final(self).image() == old(self).image(),
            same_log_header(old(self).image(), final(self).image()),
            final(self).memory() == old(self).memory(),
            final(self).free_list() == old(self).free_list(),
            index_without(
                old(self).image(),
                final(self).image(),
                old(self).memory().ht,
                key_hash(old(self).memory().salt@, key@),
            ),
    {
        let hash = self.get_hash(&key);
        self.ht_delete_with_hash(hash)
    }
}

} // verus!
