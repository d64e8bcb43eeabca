use std::collections::BTreeMap;
use vstd::prelude::*;
use vstd::slice::slice_to_vec;
use crate::codec::encode_num;
use crate::codec::lemma_num_roundtrip;
use crate::codec::num_bytes;
use crate::codec::zero_bytes;
use crate::codec::zeros;
use crate::cursor::lemma_delmap_has;
use crate::cursor::lemma_delmap_remainders;
use crate::cursor::lemma_delmap_retire;
use crate::cursor::lemma_delmap_step_new;
use crate::cursor::lemma_delmap_step_same;
use crate::cursor::lemma_value_remainders;
use crate::cursor::lemma_values_has;
use crate::cursor::lemma_values_retire;
use crate::cursor::lemma_values_step_new;
use crate::cursor::lemma_values_step_same;
use crate::frame::agree_except;
use crate::frame::lemma_agree_chain;
use crate::frame::lemma_agree_put;
use crate::frame::lemma_agree_widen;
use crate::image::Image;
use crate::layout::DELMAP_ENTRY_SIZE;
use crate::layout::DELMAP_SPAN;
use crate::layout::DELS_PER_DELMAP;
use crate::layout::ENTRY_SPAN;
use crate::layout::FIRST_SECTOR_OFFSET;
use crate::layout::FIRST_SLOT_OFFSET;
use crate::layout::FIRST_VALUE_LOGICAL_OFFSET;
use crate::layout::is_sector_base;
use crate::layout::NEXT_DELMAP_PHYSICAL_OFFSET;
use crate::layout::NEXT_VALUE_LOGICAL_OFFSET;
use crate::layout::NEXT_VALUE_PHYSICAL_OFFSET;
use crate::layout::PAGE_TYPE_DELMAP;
use crate::layout::PAGE_TYPE_VALUES;
use crate::layout::SECTOR_SIZE;
use crate::layout::SECTOR_TYPE_OFFSET;
use crate::layout::VALUE_LIMIT;
use crate::layout::VALUE_SIZE;
use crate::layout::VALUE_SPAN;
use crate::logframe::lemma_append_keeps_slots;
use crate::logframe::lemma_elsewhere_keeps_slots;
use crate::logframe::lemma_mark_keeps_marks;
use crate::logframe::lemma_marks_kept_twice;
use crate::logframe::lemma_slots_kept_twice;
use crate::logframe::marks_kept;
use crate::logframe::marks_kept_but;
use crate::logframe::retire_touches;
use crate::logframe::slots_kept;
use crate::logshape::delmap_follows;
use crate::logshape::entry_offset;
use crate::logshape::lemma_delmap_floor;
use crate::logshape::lemma_delmap_span;
use crate::logshape::lemma_entry_place;
use crate::logshape::lemma_slot_place;
use crate::logshape::lemma_value_span;
use crate::logshape::lemma_values_floor;
use crate::logshape::span_floor;
use crate::logshape::values_follow;
use crate::sectors::allocated_sector;
use crate::sectors::allocation;
use crate::sectors::allocation_touches;
use crate::sectors::file_size_after_allocate;
use crate::sectors::free_list_after_allocate;
use crate::sectors::free_list_after_free;
use crate::sectors::holds_zeros;
use crate::sectors::is_written;
use crate::sectors::lemma_allocation_agrees;
use crate::sectors::lemma_sectors_apart;
use crate::sectors::prefix_len;
use crate::shape::lemma_cell_readable;
use crate::shape::lemma_conforming_after_allocation;
use crate::shape::lemma_in_sector;
use crate::table::HashTable;
use crate::upkeep::freed;
use crate::upkeep::lemma_allocation_spares;
use crate::upkeep::lemma_data_write;
use crate::upkeep::lemma_free_steady;
use crate::upkeep::lemma_header_write_steady;
use crate::upkeep::steady;

verus! {

/// The greatest key of `map` that is not above `key`, with its value.
///
/// Rests on `BTreeMap::range`, which walks the entries whose keys lie in the given
/// range in ascending order of key, and on `next_back` of that walk, which gives the
/// last of them, if there is one.
#[verifier::external_body]
pub(crate) fn floor_entry(map: &BTreeMap<u64, u64>, key: u64) -> (entry: Option<(u64, u64)>)
    ensures
        match entry {
            Some((found, value)) => {
                &&& map@.contains_key(found)
                &&& map@[found] == value
                &&& found <= key
                &&& forall|k: u64| map@.contains_key(k) && k <= key ==> k <= found
            },
            None => forall|k: u64| map@.contains_key(k) ==> k > key,
        },
{
    map.range(..=key).next_back().map(|found| (*found.0, *found.1))
}

/// The prelude of a sector of the value log or of the bitmap: key, padding, type,
/// free-list pointer and, for the value log, padding up to the first slot.
pub open spec fn is_log_prelude(chunks: Seq<Vec<u8>>, key: u64, kind: u64) -> bool {
    &&& chunks.len() == if kind == PAGE_TYPE_VALUES {
        5int
    } else {
        4int
    }
    &&& chunks[0]@ == num_bytes(key)
    &&& chunks[1]@ == zeros(40)
    &&& chunks[2]@ == num_bytes(kind)
    &&& chunks[3]@ == zeros(8)
    &&& kind == PAGE_TYPE_VALUES ==> chunks[4]@ == zeros(64)
}

/// A sector allocated with the prelude of the value log or of the bitmap has that
/// type and key, and all its pending writes respect the layout.
pub proof fn lemma_log_sector_cells(
    after: Image,
    reused: bool,
    before: Image,
    ret: u64,
    chunks: Seq<Vec<u8>>,
    key: u64,
    kind: u64,
)
    requires
        kind == PAGE_TYPE_VALUES || kind == PAGE_TYPE_DELMAP,
        is_log_prelude(chunks, key, kind),
        is_sector_base(ret),
        allocation(
            before,
            after,
            reused,
            ret,
            chunks,
            if kind == PAGE_TYPE_VALUES {
                128
            } else {
                64
            },
            if kind == PAGE_TYPE_VALUES {
                128
            } else {
                32
            },
        ),
    ensures
        after.kind(ret) == kind,
        after.num(ret) == key,
        forall|k: u64|
            ret <= k < ret + SECTOR_SIZE && #[trigger] after.changes.contains_key(k)
                ==> after.cell_ok(k, after.changes[k].len()),
{
    reveal_with_fuel(prefix_len, 6);
    let size: int = if kind == PAGE_TYPE_VALUES {
        128
    } else {
        64
    };
    let el: int = if kind == PAGE_TYPE_VALUES {
        128
    } else {
        32
    };
    lemma_num_roundtrip(key);
    lemma_num_roundtrip(kind);
    assert(prefix_len(chunks, 0) == 0);
    assert(prefix_len(chunks, 1) == 8);
    assert(prefix_len(chunks, 2) == 48);
    assert(prefix_len(chunks, 3) == 56);
    assert(after.changes[ret] == num_bytes(key));
    assert(after.changes[(ret + 48) as u64] == num_bytes(kind));
    assert(after.kind(ret) == kind);
    assert forall|k: u64|
        ret <= k < ret + SECTOR_SIZE && #[trigger] after.changes.contains_key(
            k,
        ) implies after.cell_ok(k, after.changes[k].len()) by {
        lemma_in_sector(ret, k);
        assert(is_written(chunks, size, el, k - ret));
        if exists|i: int| 0 <= i < chunks.len() && k - ret == #[trigger] prefix_len(chunks, i) {
            let i = choose|i: int|
                0 <= i < chunks.len() && k - ret == #[trigger] prefix_len(chunks, i);
            assert(after.changes[(ret + prefix_len(chunks, i)) as u64] == chunks[i]@);
            if kind == PAGE_TYPE_VALUES {
                assert(prefix_len(chunks, 4) == 64);
            }
        } else {
            assert(holds_zeros(after.changes, k, el as nat));
        }
    }
}

/// The sectors that stay on the free list after an allocation are still marked free.
pub proof fn lemma_free_kinds_after_allocation(
    before: Image,
    after: Image,
    chain: Seq<u64>,
    ret: u64,
)
    requires
        before.free_kinds_ok(chain),
        before.free_chain(chain),
        is_sector_base(ret),
        chain.len() > 0 ==> ret == chain[0],
        chain.len() == 0 ==> ret == before.file_size(),
        agree_except(before, after, allocation_touches(ret)),
    ensures
        after.free_kinds_ok(free_list_after_allocate(chain)),
{
    let rest = free_list_after_allocate(chain);
    assert forall|i: int| 0 <= i < rest.len() implies after.kind(#[trigger] rest[i]) == 0 by {
        assert(rest[i] == chain[i + 1]);
        assert(before.has_sector(chain[i + 1]));
        assert(before.kind(chain[i + 1]) == 0);
        lemma_sectors_apart(ret, rest[i]);
        let at = (rest[i] + SECTOR_TYPE_OFFSET) as u64;
        assert(!allocation_touches(ret).contains(at));
        assert(after.read(at, 8) == before.read(at, 8));
    }
}

/// The offsets that appending to a sector of the log may change: the header fields of
/// the allocator, the write position at `cursor`, and the sector at `base`.
pub open spec fn append_touches(cursor: u64, base: u64) -> Set<u64> {
    Set::new(
        |offset: u64|
            offset == 0 || offset == 8 || offset == cursor || base <= offset < base + SECTOR_SIZE,
    )
}

/// The directory of the value log after a slot was appended at the logical offset
/// `cur`: where the slot starts a stretch, a sector was allocated for the stretch.
pub open spec fn values_after_append(
    values: Map<u64, u64>,
    chain: Seq<u64>,
    file_size: u64,
    cur: u64,
) -> Map<u64, u64> {
    if cur % VALUE_SPAN == 0 {
        values.insert(cur, (allocated_sector(chain, file_size) + VALUE_SIZE) as u64)
    } else {
        values
    }
}

/// The directory of the bitmap after a slot was appended at the logical offset `cur`:
/// where the slot starts a stretch, a sector was allocated for the stretch.
pub open spec fn delmap_after_append(
    delmap: Map<u64, u64>,
    chain: Seq<u64>,
    file_size: u64,
    cur: u64,
) -> Map<u64, u64> {
    if cur % DELMAP_SPAN == 0 {
        delmap.insert(cur, (allocated_sector(chain, file_size) + FIRST_SLOT_OFFSET) as u64)
    } else {
        delmap
    }
}

/// The free list after a slot was appended at the logical offset `cur`, as far as a
/// directory with stretches of `span` bytes is concerned.
pub open spec fn free_list_after_append(chain: Seq<u64>, cur: u64, span: u64) -> Seq<u64> {
    if cur % span == 0 {
        free_list_after_allocate(chain)
    } else {
        chain
    }
}

/// The size of the file after a slot was appended at the logical offset `cur`, as far
/// as a directory with stretches of `span` bytes is concerned.
pub open spec fn file_size_after_append(chain: Seq<u64>, file_size: u64, cur: u64, span: u64) -> int {
    if cur % span == 0 {
        file_size_after_allocate(chain, file_size)
    } else {
        file_size as int
    }
}

/// Where an append at the logical offset `cur` puts the slot and its mark, and where
/// it leaves the two write positions: the slot stands behind the header of a new
/// sector where the old write position was the end of a sector, which it is exactly
/// when `cur` starts a stretch, and at the old write position otherwise; the write
/// position of the value log then stands behind the slot. The write position of the
/// bitmap stands behind the entry of the slot: it stays where `cur` does not start an
/// entry, and moves on by one entry where it starts one within a sector.
#[verifier::opaque]
pub open spec fn append_places(
    before: Image,
    chain: Seq<u64>,
    after: Image,
    values: Map<u64, u64>,
    delmap: Map<u64, u64>,
    cur: u64,
) -> bool {
    &&& after.next_value_physical() == after.slot_place(values, cur) + VALUE_SIZE
    &&& after.slot_place(values, cur) == if cur % VALUE_SPAN == 0 {
        allocated_sector(chain, before.file_size()) + VALUE_SIZE
    } else {
        before.next_value_physical() as int
    }
    &&& (before.next_value_physical() % SECTOR_SIZE == FIRST_SECTOR_OFFSET) == (cur % VALUE_SPAN
        == 0)
    &&& after.next_delmap_physical() == after.entry_place(delmap, cur) + DELMAP_ENTRY_SIZE
    &&& cur % ENTRY_SPAN != 0 ==> after.next_delmap_physical() == before.next_delmap_physical()
    &&& cur % ENTRY_SPAN == 0 && cur % DELMAP_SPAN != 0 ==> after.next_delmap_physical()
        == before.next_delmap_physical() + DELMAP_ENTRY_SIZE
}

/// The directory of the value log after the first slot of the log was copied to the
/// end of the log at `next`, if it was live.
pub open spec fn values_after_copy(
    values: Map<u64, u64>,
    chain: Seq<u64>,
    file_size: u64,
    next: u64,
    live: bool,
) -> Map<u64, u64> {
    if live {
        values_after_append(values, chain, file_size, next)
    } else {
        values
    }
}

/// The directory of the bitmap after the first slot of the log was copied to the end
/// of the log at `next`, if it was live.
pub open spec fn delmap_after_copy(
    delmap: Map<u64, u64>,
    chain: Seq<u64>,
    file_size: u64,
    next: u64,
    live: bool,
) -> Map<u64, u64> {
    if live {
        delmap_after_append(
            delmap,
            free_list_after_append(chain, next, VALUE_SPAN),
            file_size_after_append(chain, file_size, next, VALUE_SPAN) as u64,
            next,
        )
    } else {
        delmap
    }
}

/// The free list after the first slot of the log was copied to the end of the log at
/// `next`, if it was live.
pub open spec fn free_list_after_copy(chain: Seq<u64>, next: u64, live: bool) -> Seq<u64> {
    if live {
        free_list_after_append(free_list_after_append(chain, next, VALUE_SPAN), next, DELMAP_SPAN)
    } else {
        chain
    }
}

/// The directory of the value log after the start of the log moved on from `first` by
/// one slot: the sector that the start has left is dropped.
pub open spec fn values_after_move(values: Map<u64, u64>, first: u64) -> Map<u64, u64> {
    if (first + VALUE_SIZE) % (VALUE_SPAN as int) == 0 {
        values.remove(span_floor(first, VALUE_SPAN))
    } else {
        values
    }
}

/// The directory of the bitmap after the start of the log moved on from `first` by
/// one slot: the sector that the start has left is dropped.
pub open spec fn delmap_after_move(delmap: Map<u64, u64>, first: u64) -> Map<u64, u64> {
    if (first + VALUE_SIZE) % (DELMAP_SPAN as int) == 0 {
        delmap.remove(span_floor(first, DELMAP_SPAN))
    } else {
        delmap
    }
}

/// The free list after the start of the log moved on from `first` by one slot: a
/// sector of the value log is freed exactly when the start leaves it, and then a
/// sector of the bitmap exactly when the start leaves the stretch that it covers.
pub open spec fn free_list_after_move(
    chain: Seq<u64>,
    values: Map<u64, u64>,
    delmap: Map<u64, u64>,
    first: u64,
) -> Seq<u64> {
    let after_values = if (first + VALUE_SIZE) % (VALUE_SPAN as int) == 0 {
        free_list_after_free(chain, (values[span_floor(first, VALUE_SPAN)] - VALUE_SIZE) as u64)
    } else {
        chain
    };
    if (first + VALUE_SIZE) % (DELMAP_SPAN as int) == 0 {
        free_list_after_free(
            after_values,
            (delmap[span_floor(first, DELMAP_SPAN)] - FIRST_SLOT_OFFSET) as u64,
        )
    } else {
        after_values
    }
}

/// A header field can be read and written as a number.
pub proof fn lemma_header_readable(image: Image, offset: u64)
    requires
        image.sized(),
        image.conforming(),
        offset == 16 || offset == 24 || offset == 32 || offset == 48,
    ensures
        image.readable(offset, 8),
        image.writable(offset, 8),
{
    if image.changes.contains_key(offset) {
        assert(image.cell_ok(offset, image.changes[offset].len()));
    }
    lemma_cell_readable(image, offset, 8);
}

/// Setting a bit of a byte sets it.
pub proof fn lemma_bit_set(byte: u8, bit: u8)
    requires
        bit < 8,
    ensures
        (byte | (1u8 << bit)) & (1u8 << bit) != 0,
{
    assert((byte | (1u8 << bit)) & (1u8 << bit) != 0) by (bit_vector)
        requires
            bit < 8,
    ;
}

impl HashTable {
    /// Allocates a sector for a stretch of the value log (`kind` is the type of the
    /// value log) or of the deletion bitmap, keyed by the logical offset `key`.
    #[verifier::spinoff_prover]
    pub(crate) fn open_log_sector(&mut self, key: u64, kind: u64) -> (ret: u64)
        requires
            old(self).tx.coherent(old(self).disk@),
            steady(
                old(self).image(),
                old(self).free_list(),
                old(self).ht_mapping@,
                old(self).values_mapping@,
                old(self).delmap_mapping@,
            ),
            kind == PAGE_TYPE_VALUES || kind == PAGE_TYPE_DELMAP,
        ensures
            old(self).image().accounted(
                old(self).ht_mapping@,
                old(self).values_mapping@,
                old(self).delmap_mapping@,
            ) ==> final(self).image().accounted_but(
                old(self).ht_mapping@,
                old(self).values_mapping@,
                old(self).delmap_mapping@,
                ret,
            ),
            crate::indexshape::index_kept(
                old(self).image(),
                final(self).image(),
                old(self).ht_mapping@,
            ),
            final(self).tx.coherent(final(self).disk@),
            steady(
                final(self).image(),
                final(self).free_list(),
                final(self).ht_mapping@,
                final(self).values_mapping@,
                final(self).delmap_mapping@,
            ),
            final(self).free_list() == free_list_after_allocate(old(self).free_list()),
            final(self).image().file_size() >= old(self).image().file_size(),
            ret == allocated_sector(old(self).free_list(), old(self).image().file_size()),
            final(self).image().file_size() == file_size_after_allocate(
                old(self).free_list(),
                old(self).image().file_size(),
            ),
            agree_except(old(self).image(), final(self).image(), allocation_touches(ret)),
            final(self).image().has_sector(ret),
            final(self).image().kind(ret) == kind,
            final(self).image().num(ret) == key,
            old(self).image().has_sector(ret)
                ==> old(self).free_list().len() > 0 && ret == old(self).free_list()[0],
            is_sector_base(ret),
            forall|key: u64| #[trigger]
                old(self).values_mapping@.contains_key(key) ==> old(self).values_mapping@[key]
                    - VALUE_SIZE != ret,
            forall|key: u64| #[trigger]
                old(self).delmap_mapping@.contains_key(key) ==> old(self).delmap_mapping@[key]
                    - FIRST_SLOT_OFFSET != ret,
            final(self).memory() == old(self).memory(),
    {
        proof {
            reveal(crate::upkeep::steady);
        }
        let ghost before = self.image();
        let ghost chain = self.free_list();
        let mut prelude: Vec<Vec<u8>> = Vec::new();
        prelude.push(encode_num(key));
        prelude.push(zero_bytes(40));
        prelude.push(encode_num(kind));
        prelude.push(zero_bytes(8));
        let ret = if kind == PAGE_TYPE_VALUES {
            prelude.push(zero_bytes(64));
            proof {
                reveal_with_fuel(prefix_len, 6);
                assert(prefix_len(prelude@, 5) == 128);
                assert(is_log_prelude(prelude@, key, kind));
            }
            self.allocate_sector(prelude, VALUE_SIZE, VALUE_SIZE)
        } else {
            proof {
                reveal_with_fuel(prefix_len, 6);
                assert(prefix_len(prelude@, 4) == 64);
                assert(is_log_prelude(prelude@, key, kind));
            }
            self.allocate_sector(prelude, FIRST_SLOT_OFFSET, 32)
        };
        proof {
            let size: int = if kind == PAGE_TYPE_VALUES {
                128
            } else {
                64
            };
            let el: int = if kind == PAGE_TYPE_VALUES {
                128
            } else {
                32
            };
            lemma_allocation_agrees(before, self.image(), chain.len() > 0, ret, prelude@, size, el);
            lemma_log_sector_cells(self.image(), chain.len() > 0, before, ret, prelude@, key, kind);
            lemma_conforming_after_allocation(before, self.image(), ret);
            lemma_free_kinds_after_allocation(before, self.image(), chain, ret);
            lemma_allocation_spares(
                before,
                self.image(),
                chain,
                self.ht_mapping@,
                self.values_mapping@,
                self.delmap_mapping@,
                ret,
            );
            if chain.len() > 0 {
                assert(before.kind(chain[0]) == 0);
            }
            if before.accounted(self.ht_mapping@, self.values_mapping@, self.delmap_mapping@) {
                crate::accounting::lemma_accounted_allocated(
                    before,
                    self.image(),
                    self.ht_mapping@,
                    self.values_mapping@,
                    self.delmap_mapping@,
                    ret,
                );
            }
            assert forall|other: u64| #[trigger]
                self.values_mapping@.contains_key(other) implies self.values_mapping@[other]
                - VALUE_SIZE != ret by {
                assert(before.value_sector_ok(other, self.values_mapping@[other]));
            }
            assert forall|other: u64| #[trigger]
                self.delmap_mapping@.contains_key(other) implies self.delmap_mapping@[other]
                - FIRST_SLOT_OFFSET != ret by {
                assert(before.delmap_sector_ok(other, self.delmap_mapping@[other]));
            }
        }
        ret
    }
}

/// Copies a value slot into an array.
pub fn to_slot(bytes: &Vec<u8>) -> (slot: [u8; 128])
    requires
        bytes@.len() == VALUE_SIZE,
    ensures
        slot@ == bytes@,
{
    let mut slot = [0u8; 128];
    let mut i: usize = 0;
    while i < 128
        invariant
            0 <= i <= 128,
            bytes@.len() == 128,
            forall|j: int| 0 <= j < i ==> slot@[j] == bytes@[j],
        decreases 128 - i,
    {
        slot[i] = bytes[i];
        i += 1;
    }
    assert(slot@ =~= bytes@);
    slot
}

/// A bitmap entry with bit `i` set.
pub open spec fn with_bit(entry: Seq<u8>, i: int) -> Seq<u8> {
    entry.update(i / 8, entry[i / 8] | (1u8 << ((i % 8) as u8)))
}

/// A bitmap entry with bit `i` cleared.
pub open spec fn without_bit(entry: Seq<u8>, i: int) -> Seq<u8> {
    entry.update(i / 8, entry[i / 8] & !(1u8 << ((i % 8) as u8)))
}

impl HashTable {
    /// Writes `data` as the value slot at the logical offset `cur`, which is the end
    /// of the log, at the file offset `place`, and moves the write position on. Opens
    /// a new sector first where `place` is the end of a sector.
    #[verifier::spinoff_prover]
    pub(crate) fn append_slot(&mut self, cur: u64, place: u64, data: [u8; 128])
        requires
            old(self).tx.coherent(old(self).disk@),
            steady(
                old(self).image(),
                old(self).free_list(),
                old(self).ht_mapping@,
                old(self).values_mapping@,
                old(self).delmap_mapping@,
            ),
            old(self).image().first_logical() % VALUE_SIZE == 0,
            cur % VALUE_SIZE == 0,
            old(self).image().first_logical() <= cur,
            cur + VALUE_SIZE <= VALUE_LIMIT,
            values_follow(old(self).image().first_logical(), cur, place, old(self).values_mapping@),
        ensures
            old(self).image().accounted(
                old(self).ht_mapping@,
                old(self).values_mapping@,
                old(self).delmap_mapping@,
            ) ==> final(self).image().accounted(
                final(self).ht_mapping@,
                final(self).values_mapping@,
                final(self).delmap_mapping@,
            ),
            crate::indexshape::index_kept(
                old(self).image(),
                final(self).image(),
                old(self).ht_mapping@,
            ),
            final(self).tx.coherent(final(self).disk@),
            steady(
                final(self).image(),
                final(self).free_list(),
                final(self).ht_mapping@,
                final(self).values_mapping@,
                final(self).delmap_mapping@,
            ),
            values_follow(
                old(self).image().first_logical(),
                (cur + VALUE_SIZE) as u64,
                final(self).image().next_value_physical(),
                final(self).values_mapping@,
            ),
            final(self).values_mapping@.contains_key(span_floor(cur, VALUE_SPAN)),
            final(self).image().value_at(final(self).values_mapping@, cur) == data@,
            final(self).image().next_value_physical() == final(self).image().slot_place(
                final(self).values_mapping@,
                cur,
            ) + VALUE_SIZE,
            cur % VALUE_SPAN != 0 ==> final(self).image().slot_place(
                final(self).values_mapping@,
                cur,
            ) == place,
            (place % SECTOR_SIZE == FIRST_SECTOR_OFFSET) == (cur % VALUE_SPAN == 0),
            cur % VALUE_SPAN == 0 ==> final(self).image().slot_place(
                final(self).values_mapping@,
                cur,
            ) == allocated_sector(old(self).free_list(), old(self).image().file_size())
                + VALUE_SIZE,
            slots_kept(
                old(self).image(),
                old(self).values_mapping@,
                final(self).image(),
                final(self).values_mapping@,
                old(self).image().first_logical(),
                cur,
            ),
            final(self).values_mapping@ == values_after_append(
                old(self).values_mapping@,
                old(self).free_list(),
                old(self).image().file_size(),
                cur,
            ),
            final(self).free_list() == free_list_after_append(
                old(self).free_list(),
                cur,
                VALUE_SPAN,
            ),
            final(self).image().file_size() == file_size_after_append(
                old(self).free_list(),
                old(self).image().file_size(),
                cur,
                VALUE_SPAN,
            ),
            agree_except(
                old(self).image(),
                final(self).image(),
                append_touches(
                    NEXT_VALUE_PHYSICAL_OFFSET,
                    (final(self).values_mapping@[span_floor(cur, VALUE_SPAN)] - VALUE_SIZE) as u64,
                ),
            ),
            forall|key: u64| #[trigger]
                old(self).values_mapping@.contains_key(key)
                    ==> final(self).values_mapping@.contains_key(key)
                        && final(self).values_mapping@[key] == old(self).values_mapping@[key],
            final(self).delmap_mapping@ == old(self).delmap_mapping@,
            final(self).ht_mapping@ == old(self).ht_mapping@,
            final(self).salt == old(self).salt,
            final(self).writes_since_resize == old(self).writes_since_resize,
            final(self).del_balance == old(self).del_balance,
    {
        proof {
            reveal(crate::upkeep::steady);
        }
        let ghost img0 = self.image();
        let ghost first = img0.first_logical();
        let ghost values0 = self.values_mapping@;
        let ghost delmap0 = self.delmap_mapping@;
        let ghost acc = img0.accounted(self.ht_mapping@, values0, delmap0);
        let mut next_value_physical_offset = place;
        proof {
            lemma_value_remainders(cur);
            lemma_values_has(first, cur, place, values0);
            if cur % VALUE_SPAN != 0 {
                let key = span_floor(cur, VALUE_SPAN);
                assert(values0.contains_key(key));
                assert(img0.value_sector_ok(key, values0[key]));
                lemma_values_step_same(first, cur, place, values0);
            }
        }
        if next_value_physical_offset % SECTOR_SIZE == FIRST_SECTOR_OFFSET {
            let base = self.open_log_sector(cur, PAGE_TYPE_VALUES);
            next_value_physical_offset = base + VALUE_SIZE;
            self.values_mapping.insert(cur, next_value_physical_offset);
            proof {
                lemma_values_step_new(first, cur, place, values0, base);
                assert(self.image().dirs_ok(self.values_mapping@, self.delmap_mapping@));
                if acc {
                    crate::accounting::lemma_accounted_values(
                        self.image(),
                        self.ht_mapping@,
                        values0,
                        delmap0,
                        base,
                        cur,
                    );
                }
            }
        }
        let ghost img2 = self.image();
        let ghost values1 = self.values_mapping@;
        let ghost at = next_value_physical_offset;
        let ghost key = span_floor(cur, VALUE_SPAN);
        let ghost base = (values1[key] - VALUE_SIZE) as u64;
        let ghost touched = append_touches(NEXT_VALUE_PHYSICAL_OFFSET, base);
        proof {
            assert(values1.contains_key(key));
            assert(img2.value_sector_ok(key, values1[key]));
            assert(at == values1[key] + cur % VALUE_SPAN);
            lemma_in_sector(base, at);
            assert(img2.cell_ok(at, 128));
            if img2.changes.contains_key(at) {
                assert(img2.cell_ok(at, img2.changes[at].len()));
            }
            lemma_data_write(
                img2,
                self.free_list(),
                self.ht_mapping@,
                values1,
                delmap0,
                base,
                at,
                data@,
            );
            if acc {
                crate::accounting::lemma_accounted_kept(
                    img2,
                    img2.put(at, data@),
                    self.ht_mapping@,
                    values1,
                    delmap0,
                    0,
                );
            }
            if cur % VALUE_SPAN == 0 {
                assert(allocation_touches(base).subset_of(touched));
            }
            lemma_agree_widen(
                img0,
                img2,
                if cur % VALUE_SPAN == 0 {
                    allocation_touches(base)
                } else {
                    Set::<u64>::empty()
                },
                touched,
            );
            lemma_agree_widen(img2, img2.put(at, data@), set![at], touched);
            lemma_agree_chain(img0, img2, img2.put(at, data@), touched, touched);
            assert(touched.union(touched) =~= touched);
        }
        self.tx.set(next_value_physical_offset, slice_to_vec(data.as_slice()));
        let ghost img3 = self.image();
        next_value_physical_offset += VALUE_SIZE;
        proof {
            lemma_num_roundtrip(next_value_physical_offset);
            lemma_header_write_steady(
                img3,
                self.free_list(),
                self.ht_mapping@,
                values1,
                delmap0,
                32,
                num_bytes(next_value_physical_offset),
            );
            assert(img3.changes.contains_key(32) ==> img3.cell_ok(32, img3.changes[32].len()));
            if acc {
                crate::accounting::lemma_accounted_kept(
                    img3,
                    img3.put(32, num_bytes(next_value_physical_offset)),
                    self.ht_mapping@,
                    values1,
                    delmap0,
                    0,
                );
            }
            let img4 = img3.put(32, num_bytes(next_value_physical_offset));
            lemma_agree_widen(img3, img4, set![32u64], touched);
            lemma_agree_chain(img0, img3, img4, touched, touched);
            lemma_num_roundtrip(next_value_physical_offset);
        }
        self.tx.set(NEXT_VALUE_PHYSICAL_OFFSET, encode_num(next_value_physical_offset));
        proof {
            let img4 = self.image();
            if cur % VALUE_SPAN != 0 {
                assert(img2 == img0);
                lemma_agree_put(img0, at, data@);
                crate::frame::lemma_agree_then_put(
                    img0,
                    img3,
                    set![at],
                    32,
                    num_bytes(next_value_physical_offset),
                );
                assert(set![at].insert(32u64) =~= set![at, 32u64]);
            }
            lemma_append_keeps_slots(
                img0,
                values0,
                img4,
                values1,
                first,
                cur,
                place,
                next_value_physical_offset,
                at,
                base,
            );
        }
    }

    /// Marks the value slot at the logical offset `cur`, which is the end of the
    /// log, as live, in the bitmap entry before the file offset `place` or, where the
    /// slot is the first of its entry, in a new entry at `place`. Opens a new sector
    /// first where `place` is the end of a sector.
    #[verifier::spinoff_prover]
    #[verifier::rlimit(60)]
    pub(crate) fn mark_slot(&mut self, cur: u64, place: u64)
        requires
            old(self).tx.coherent(old(self).disk@),
            steady(
                old(self).image(),
                old(self).free_list(),
                old(self).ht_mapping@,
                old(self).values_mapping@,
                old(self).delmap_mapping@,
            ),
            old(self).image().first_logical() % VALUE_SIZE == 0,
            cur % VALUE_SIZE == 0,
            old(self).image().first_logical() <= cur,
            cur + VALUE_SIZE <= VALUE_LIMIT,
            delmap_follows(old(self).image().first_logical(), cur, place, old(self).delmap_mapping@),
            old(self).image().next_delmap_physical() == place,
        ensures
            old(self).image().accounted(
                old(self).ht_mapping@,
                old(self).values_mapping@,
                old(self).delmap_mapping@,
            ) ==> final(self).image().accounted(
                final(self).ht_mapping@,
                final(self).values_mapping@,
                final(self).delmap_mapping@,
            ),
            crate::indexshape::index_kept(
                old(self).image(),
                final(self).image(),
                old(self).ht_mapping@,
            ),
            final(self).tx.coherent(final(self).disk@),
            steady(
                final(self).image(),
                final(self).free_list(),
                final(self).ht_mapping@,
                final(self).values_mapping@,
                final(self).delmap_mapping@,
            ),
            delmap_follows(
                old(self).image().first_logical(),
                (cur + VALUE_SIZE) as u64,
                final(self).image().next_delmap_physical(),
                final(self).delmap_mapping@,
            ),
            final(self).delmap_mapping@.contains_key(span_floor(cur, DELMAP_SPAN)),
            final(self).image().is_live(final(self).delmap_mapping@, cur),
            final(self).image().next_delmap_physical() == final(self).image().entry_place(
                final(self).delmap_mapping@,
                cur,
            ) + DELMAP_ENTRY_SIZE,
            cur % ENTRY_SPAN != 0 ==> final(self).image().next_delmap_physical() == place,
            cur % ENTRY_SPAN == 0 && cur % DELMAP_SPAN != 0
                ==> final(self).image().next_delmap_physical() == place + DELMAP_ENTRY_SIZE,
            marks_kept(
                old(self).image(),
                old(self).delmap_mapping@,
                final(self).image(),
                final(self).delmap_mapping@,
                old(self).image().first_logical(),
                cur,
            ),
            final(self).delmap_mapping@ == delmap_after_append(
                old(self).delmap_mapping@,
                old(self).free_list(),
                old(self).image().file_size(),
                cur,
            ),
            final(self).free_list() == free_list_after_append(
                old(self).free_list(),
                cur,
                DELMAP_SPAN,
            ),
            final(self).image().file_size() == file_size_after_append(
                old(self).free_list(),
                old(self).image().file_size(),
                cur,
                DELMAP_SPAN,
            ),
            agree_except(
                old(self).image(),
                final(self).image(),
                append_touches(
                    NEXT_DELMAP_PHYSICAL_OFFSET,
                    (final(self).delmap_mapping@[span_floor(cur, DELMAP_SPAN)]
                        - FIRST_SLOT_OFFSET) as u64,
                ),
            ),
            forall|key: u64| #[trigger]
                old(self).delmap_mapping@.contains_key(key)
                    ==> final(self).delmap_mapping@.contains_key(key)
                        && final(self).delmap_mapping@[key] == old(self).delmap_mapping@[key],
            final(self).values_mapping@ == old(self).values_mapping@,
            final(self).ht_mapping@ == old(self).ht_mapping@,
            final(self).salt == old(self).salt,
            final(self).writes_since_resize == old(self).writes_since_resize,
            final(self).del_balance == old(self).del_balance,
    {
        proof {
            reveal(crate::upkeep::steady);
        }
        let ghost img0 = self.image();
        let ghost first = img0.first_logical();
        let ghost values0 = self.values_mapping@;
        let ghost delmap0 = self.delmap_mapping@;
        let ghost acc = img0.accounted(self.ht_mapping@, values0, delmap0);
        let mut next_delmap_physical_offset = place;
        let offset_within_delmap = (cur / VALUE_SIZE) % DELS_PER_DELMAP;
        proof {
            lemma_delmap_remainders(cur);
            lemma_delmap_has(first, cur, place, delmap0);
            if cur % DELMAP_SPAN != 0 {
                let key = span_floor(cur, DELMAP_SPAN);
                assert(delmap0.contains_key(key));
                assert(img0.delmap_sector_ok(key, delmap0[key]));
                lemma_delmap_step_same(first, cur, place, delmap0);
            }
        }
        let ghost key = span_floor(cur, DELMAP_SPAN);
        if offset_within_delmap == 0 {
            if next_delmap_physical_offset % SECTOR_SIZE == FIRST_SECTOR_OFFSET {
                let base = self.open_log_sector(cur, PAGE_TYPE_DELMAP);
                next_delmap_physical_offset = base + FIRST_SLOT_OFFSET;
                self.delmap_mapping.insert(cur, next_delmap_physical_offset);
                proof {
                    lemma_delmap_step_new(first, cur, place, delmap0, base);
                    assert(self.image().dirs_ok(self.values_mapping@, self.delmap_mapping@));
                    if acc {
                        crate::accounting::lemma_accounted_delmap(
                            self.image(),
                            self.ht_mapping@,
                            values0,
                            delmap0,
                            base,
                            cur,
                        );
                    }
                }
            }
            let ghost img1 = self.image();
            next_delmap_physical_offset += DELMAP_ENTRY_SIZE;
            proof {
                let dbase = (self.delmap_mapping@[key] - FIRST_SLOT_OFFSET) as u64;
                let touched = append_touches(NEXT_DELMAP_PHYSICAL_OFFSET, dbase);
                lemma_num_roundtrip(next_delmap_physical_offset);
                lemma_header_write_steady(
                    img1,
                    self.free_list(),
                    self.ht_mapping@,
                    values0,
                    self.delmap_mapping@,
                    48,
                    num_bytes(next_delmap_physical_offset),
                );
                assert(img1.changes.contains_key(48) ==> img1.cell_ok(
                    48,
                    img1.changes[48].len(),
                ));
                if acc {
                    crate::accounting::lemma_accounted_kept(
                        img1,
                        img1.put(48, num_bytes(next_delmap_physical_offset)),
                        self.ht_mapping@,
                        values0,
                        self.delmap_mapping@,
                        0,
                    );
                }
                if cur % DELMAP_SPAN == 0 {
                    assert(allocation_touches(dbase).subset_of(touched));
                }
                lemma_agree_widen(
                    img0,
                    img1,
                    if cur % DELMAP_SPAN == 0 {
                        allocation_touches(dbase)
                    } else {
                        Set::<u64>::empty()
                    },
                    touched,
                );
                let img2 = img1.put(48, num_bytes(next_delmap_physical_offset));
                lemma_agree_widen(img1, img2, set![48u64], touched);
                lemma_agree_chain(img0, img1, img2, touched, touched);
                assert(touched.union(touched) =~= touched);
                lemma_num_roundtrip(next_delmap_physical_offset);
            }
            self.tx.set(NEXT_DELMAP_PHYSICAL_OFFSET, encode_num(next_delmap_physical_offset));
        }
        let ghost img6 = self.image();
        let ghost delmap1 = self.delmap_mapping@;
        let ghost entry_at = (next_delmap_physical_offset - DELMAP_ENTRY_SIZE) as u64;
        let ghost dbase = (delmap1[key] - FIRST_SLOT_OFFSET) as u64;
        let ghost touched = append_touches(NEXT_DELMAP_PHYSICAL_OFFSET, dbase);
        proof {
            assert(delmap1.contains_key(key));
            assert(img6.delmap_sector_ok(key, delmap1[key]));
            assert(entry_at == entry_offset(delmap1[key], (cur % DELMAP_SPAN) as int));
            assert(agree_except(img0, img6, touched));
            lemma_in_sector(dbase, entry_at);
            assert(img6.cell_ok(entry_at, 32));
            if img6.changes.contains_key(entry_at) {
                assert(img6.cell_ok(entry_at, img6.changes[entry_at].len()));
            }
            lemma_cell_readable(img6, entry_at, 32);
        }
        let mut cur_delmap = self.tx.get(
            &mut self.disk,
            next_delmap_physical_offset - DELMAP_ENTRY_SIZE,
            DELMAP_ENTRY_SIZE,
        );
        let ghost entry = cur_delmap@;
        let mask: u8 = 1u8 << ((offset_within_delmap % 8) as u8);
        let index = (offset_within_delmap / 8) as usize;
        let byte = cur_delmap[index] | mask;
        cur_delmap[index] = byte;
        proof {
            assert(cur_delmap@ =~= with_bit(entry, offset_within_delmap as int));
            lemma_bit_set(entry[index as int], (offset_within_delmap % 8) as u8);
            lemma_data_write(
                img6,
                self.free_list(),
                self.ht_mapping@,
                values0,
                delmap1,
                dbase,
                entry_at,
                cur_delmap@,
            );
            let img7 = img6.put(entry_at, cur_delmap@);
            if acc {
                crate::accounting::lemma_accounted_kept(
                    img6,
                    img7,
                    self.ht_mapping@,
                    values0,
                    delmap1,
                    0,
                );
            }
            lemma_agree_widen(img6, img7, set![entry_at], touched);
            lemma_agree_chain(img0, img6, img7, touched, touched);
            assert(touched.union(touched) =~= touched);
        }
        self.tx.set(next_delmap_physical_offset - DELMAP_ENTRY_SIZE, cur_delmap);
        proof {
            let img7 = self.image();
            if cur % DELMAP_SPAN != 0 {
                assert(entry == img0.read(entry_at, 32));
                if offset_within_delmap == 0 {
                    lemma_agree_put(img0, 48, num_bytes(next_delmap_physical_offset));
                    crate::frame::lemma_agree_then_put(
                        img0,
                        img6,
                        set![48u64],
                        entry_at,
                        with_bit(entry, offset_within_delmap as int),
                    );
                    assert(set![48u64].insert(entry_at) =~= set![entry_at, 48u64]);
                } else {
                    lemma_agree_put(img0, entry_at, with_bit(entry, offset_within_delmap as int));
                    lemma_agree_widen(img0, img7, set![entry_at], set![entry_at, 48u64]);
                }
            }
            lemma_mark_keeps_marks(
                img0,
                delmap0,
                img7,
                delmap1,
                first,
                cur,
                place,
                next_delmap_physical_offset,
                entry_at,
                dbase,
            );
        }
    }

    /// Appends a value slot to the log and marks it live. Returns its logical offset.
    #[verifier::spinoff_prover]
    #[verifier::rlimit(100)]
    pub fn write_value(&mut self, data: [u8; 128]) -> (cur_offset: u64)
        requires
            old(self).wf(),
            old(self).image().next_logical() + VALUE_SIZE <= VALUE_LIMIT - VALUE_SIZE,
        ensures
            crate::indexshape::index_kept(
                old(self).image(),
                final(self).image(),
                old(self).memory().ht,
            ),
            final(self).wf(),
            cur_offset == old(self).image().next_logical(),
            final(self).image().next_logical() == cur_offset + VALUE_SIZE,
            final(self).image().first_logical() == old(self).image().first_logical(),
            final(self).image().value_at(final(self).memory().values, cur_offset) == data@,
            final(self).image().is_live(final(self).memory().delmap, cur_offset),
            append_places(
                old(self).image(),
                old(self).free_list(),
                final(self).image(),
                final(self).memory().values,
                final(self).memory().delmap,
                cur_offset,
            ),
            final(self).image().file_size() == file_size_after_append(
                free_list_after_append(old(self).free_list(), cur_offset, VALUE_SPAN),
                file_size_after_append(
                    old(self).free_list(),
                    old(self).image().file_size(),
                    cur_offset,
                    VALUE_SPAN,
                ) as u64,
                cur_offset,
                DELMAP_SPAN,
            ),
            slots_kept(
                old(self).image(),
                old(self).memory().values,
                final(self).image(),
                final(self).memory().values,
                old(self).image().first_logical(),
                cur_offset,
            ),
            marks_kept(
                old(self).image(),
                old(self).memory().delmap,
                final(self).image(),
                final(self).memory().delmap,
                old(self).image().first_logical(),
                cur_offset,
            ),
            final(self).memory().values == values_after_append(
                old(self).memory().values,
                old(self).free_list(),
                old(self).image().file_size(),
                cur_offset,
            ),
            final(self).memory().delmap == delmap_after_append(
                old(self).memory().delmap,
                free_list_after_append(old(self).free_list(), cur_offset, VALUE_SPAN),
                file_size_after_append(
                    old(self).free_list(),
                    old(self).image().file_size(),
                    cur_offset,
                    VALUE_SPAN,
                ) as u64,
                cur_offset,
            ),
            final(self).free_list() == free_list_after_append(
                free_list_after_append(old(self).free_list(), cur_offset, VALUE_SPAN),
                cur_offset,
                DELMAP_SPAN,
            ),
            final(self).memory().ht == old(self).memory().ht,
            final(self).memory().salt == old(self).memory().salt,
            final(self).memory().writes_since_resize == old(self).memory().writes_since_resize,
            final(self).memory().del_balance == old(self).memory().del_balance,
    {
        let ghost img0 = self.image();
        proof {
            crate::upkeep::lemma_steady_cells(
                img0,
                self.free_list(),
                self.ht_mapping@,
                self.values_mapping@,
                self.delmap_mapping@,
            );
            crate::upkeep::lemma_steady_dirs(
                img0,
                self.free_list(),
                self.ht_mapping@,
                self.values_mapping@,
                self.delmap_mapping@,
            );
            lemma_header_readable(img0, 16);
            lemma_header_readable(img0, 32);
            lemma_header_readable(img0, 48);
        }
        let cur_offset = self.tx.get_num(&mut self.disk, NEXT_VALUE_LOGICAL_OFFSET);
        let next_value_physical_offset = self.tx.get_num(
            &mut self.disk,
            NEXT_VALUE_PHYSICAL_OFFSET,
        );
        let next_delmap_physical_offset = self.tx.get_num(
            &mut self.disk,
            NEXT_DELMAP_PHYSICAL_OFFSET,
        );
        proof {
            lemma_num_roundtrip((cur_offset + VALUE_SIZE) as u64);
            lemma_header_write_steady(
                img0,
                self.free_list(),
                self.ht_mapping@,
                self.values_mapping@,
                self.delmap_mapping@,
                16,
                num_bytes((cur_offset + VALUE_SIZE) as u64),
            );
            crate::accounting::lemma_accounted_kept(
                img0,
                img0.put(16, num_bytes((cur_offset + VALUE_SIZE) as u64)),
                self.ht_mapping@,
                self.values_mapping@,
                self.delmap_mapping@,
                0,
            );
        }
        let ghost values0 = self.values_mapping@;
        let ghost delmap0 = self.delmap_mapping@;
        let ghost first = img0.first_logical();
        proof {
            crate::logframe::lemma_header_keeps_marks(
                img0,
                delmap0,
                first,
                cur_offset,
                next_delmap_physical_offset,
                16,
                num_bytes((cur_offset + VALUE_SIZE) as u64),
            );
            crate::logframe::lemma_header_keeps_slots(
                img0,
                values0,
                first,
                cur_offset,
                next_value_physical_offset,
                16,
                num_bytes((cur_offset + VALUE_SIZE) as u64),
            );
        }
        self.tx.set(NEXT_VALUE_LOGICAL_OFFSET, encode_num(cur_offset + VALUE_SIZE));
        let ghost img1 = self.image();
        self.append_slot(cur_offset, next_value_physical_offset, data);
        let ghost img2 = self.image();
        let ghost values1 = self.values_mapping@;
        let ghost vbase = (self.values_mapping@[span_floor(cur_offset, VALUE_SPAN)]
            - VALUE_SIZE) as u64;
        proof {
            crate::upkeep::lemma_steady_dirs(
                img2,
                self.free_list(),
                self.ht_mapping@,
                values1,
                delmap0,
            );
            assert(img2.value_sector_ok(
                span_floor(cur_offset, VALUE_SPAN),
                values1[span_floor(cur_offset, VALUE_SPAN)],
            ));
            assert forall|other: u64| #[trigger] delmap0.contains_key(other) implies delmap0[other]
                - FIRST_SLOT_OFFSET != vbase by {
                assert(img2.delmap_sector_ok(other, delmap0[other]));
            }
            crate::logframe::lemma_elsewhere_keeps_marks(
                img1,
                img2,
                delmap0,
                first,
                cur_offset,
                next_delmap_physical_offset,
                append_touches(NEXT_VALUE_PHYSICAL_OFFSET, vbase),
                vbase,
            );
            lemma_marks_kept_twice(img0, delmap0, img1, delmap0, img2, delmap0, first, cur_offset);
            assert(!append_touches(NEXT_VALUE_PHYSICAL_OFFSET, vbase).contains(16)) by {
                assert(img2.value_sector_ok(
                    span_floor(cur_offset, VALUE_SPAN),
                    self.values_mapping@[span_floor(cur_offset, VALUE_SPAN)],
                ));
            }
            assert(img2.read(16, 8) == img1.read(16, 8));
            assert(img2.read(24, 8) == img1.read(24, 8));
            assert(img2.read(48, 8) == img1.read(48, 8));
        }
        self.mark_slot(cur_offset, next_delmap_physical_offset);
        proof {
            let img3 = self.image();
            let key = span_floor(cur_offset, VALUE_SPAN);
            let dkey = span_floor(cur_offset, DELMAP_SPAN);
            let dbase = (self.delmap_mapping@[dkey] - FIRST_SLOT_OFFSET) as u64;
            let touched = append_touches(NEXT_DELMAP_PHYSICAL_OFFSET, dbase);
            crate::upkeep::lemma_steady_dirs(
                img3,
                self.free_list(),
                self.ht_mapping@,
                self.values_mapping@,
                self.delmap_mapping@,
            );
            assert(img3.value_sector_ok(key, self.values_mapping@[key]));
            assert(img3.delmap_sector_ok(dkey, self.delmap_mapping@[dkey]));
            lemma_sectors_apart(vbase, dbase);
            lemma_value_remainders(cur_offset);
            let place = img2.slot_place(self.values_mapping@, cur_offset);
            assert(!touched.contains(place));
            assert(!touched.contains(16));
            assert(img3.read(16, 8) == img2.read(16, 8));
            assert(img3.read(24, 8) == img2.read(24, 8));
            assert(img3.read(32, 8) == img2.read(32, 8));
            assert(img3.read(place, 128) == img2.read(place, 128));
            assert forall|other: u64| #[trigger] values1.contains_key(other) implies values1[other]
                - VALUE_SIZE != dbase by {
                assert(img3.value_sector_ok(other, values1[other]));
            }
            lemma_elsewhere_keeps_slots(
                img2,
                img3,
                values1,
                first,
                (cur_offset + VALUE_SIZE) as u64,
                img2.next_value_physical(),
                touched,
                dbase,
            );
            crate::logframe::lemma_slots_kept_shorter(
                img2,
                values1,
                img3,
                values1,
                first,
                (cur_offset + VALUE_SIZE) as u64,
                cur_offset,
            );
            lemma_slots_kept_twice(img0, values0, img1, values0, img2, values1, first, cur_offset);
            lemma_slots_kept_twice(img0, values0, img2, values1, img3, values1, first, cur_offset);
            lemma_marks_kept_twice(
                img0,
                delmap0,
                img2,
                delmap0,
                img3,
                self.delmap_mapping@,
                first,
                cur_offset,
            );
            reveal(append_places);
            crate::indexlaws::lemma_kept_sound(img0, img3, self.ht_mapping@);
        }
        cur_offset
    }

    /// Reads the value slot at the logical offset `logical_offset`.
    #[verifier::spinoff_prover]
    pub fn get_value(&mut self, logical_offset: u64) -> (data: [u8; 128])
        requires
            old(self).wf(),
            old(self).image().holds_slot(logical_offset),
        ensures
            data@ == old(self).image().value_at(old(self).memory().values, logical_offset),
            final(self).wf(),
            final(self).image() == old(self).image(),
            final(self).memory() == old(self).memory(),
            final(self).free_list() == old(self).free_list(),
    {
        proof {
            reveal(crate::upkeep::steady);
        }
        proof {
            lemma_slot_place(
                self.image(),
                self.values_mapping@,
                self.delmap_mapping@,
                logical_offset,
            );
            lemma_value_span(logical_offset);
        }
        match floor_entry(&self.values_mapping, logical_offset) {
            Some((sector_logical_offset, sector_physical_offset)) => {
                proof {
                    lemma_values_floor(
                        self.image().first_logical(),
                        self.image().next_logical(),
                        self.image().next_value_physical(),
                        self.values_mapping@,
                        logical_offset,
                        sector_logical_offset,
                    );
                }
                let bytes = self.tx.get(
                    &mut self.disk,
                    sector_physical_offset + (logical_offset - sector_logical_offset),
                    VALUE_SIZE,
                );
                to_slot(&bytes)
            },
            None => [0u8; 128],
        }
    }

    /// Tells whether the value slot at the logical offset `logical_offset` is marked
    /// as deleted.
    #[verifier::spinoff_prover]
    pub fn is_value_at_offset_deleted(&mut self, logical_offset: u64) -> (deleted: bool)
        requires
            old(self).wf(),
            old(self).image().covers_slot(logical_offset),
        ensures
            deleted == !old(self).image().is_live(old(self).memory().delmap, logical_offset),
            final(self).wf(),
            final(self).image() == old(self).image(),
            final(self).memory() == old(self).memory(),
            final(self).free_list() == old(self).free_list(),
    {
        proof {
            reveal(crate::upkeep::steady);
        }
        proof {
            lemma_entry_place(
                self.image(),
                self.values_mapping@,
                self.delmap_mapping@,
                logical_offset,
            );
            lemma_delmap_span(logical_offset);
        }
        match floor_entry(&self.delmap_mapping, logical_offset) {
            Some((sector_logical_offset, sector_physical_offset)) => {
                proof {
                    lemma_delmap_floor(
                        self.image().first_logical(),
                        self.image().next_logical(),
                        self.image().next_delmap_physical(),
                        self.delmap_mapping@,
                        logical_offset,
                        sector_logical_offset,
                    );
                }
                let file_offset = sector_physical_offset + (logical_offset
                    - sector_logical_offset) / VALUE_SIZE / DELS_PER_DELMAP * DELMAP_ENTRY_SIZE;
                let offset_within_delmap = (logical_offset / VALUE_SIZE) % DELS_PER_DELMAP;
                let cur_delmap = self.tx.get(&mut self.disk, file_offset, DELMAP_ENTRY_SIZE);
                let mask: u8 = 1u8 << ((offset_within_delmap % 8) as u8);
                cur_delmap[(offset_within_delmap / 8) as usize] & mask == 0
            },
            None => true,
        }
    }

    /// Marks the value slot at the logical offset `logical_offset` as deleted.
    #[verifier::spinoff_prover]
    pub fn delete_value(&mut self, logical_offset: u64)
        requires
            old(self).wf(),
            old(self).image().covers_slot(logical_offset),
        ensures
            crate::sectorview::sectors_kept(old(self).image(), final(self).image()),
            crate::indexshape::index_kept(
                old(self).image(),
                final(self).image(),
                old(self).memory().ht,
            ),
            final(self).wf(),
            final(self).image() == old(self).image().put(
                old(self).image().entry_place(old(self).memory().delmap, logical_offset),
                without_bit(
                    old(self).image().entry_at(old(self).memory().delmap, logical_offset),
                    ((logical_offset / VALUE_SIZE) % 208) as int,
                ),
            ),
            crate::split::same_log_header(old(self).image(), final(self).image()),
            !final(self).image().is_live(final(self).memory().delmap, logical_offset),
            marks_kept_but(
                old(self).image(),
                old(self).memory().delmap,
                final(self).image(),
                final(self).memory().delmap,
                old(self).image().first_logical(),
                old(self).image().next_logical(),
                logical_offset,
            ),
            slots_kept(
                old(self).image(),
                old(self).memory().values,
                final(self).image(),
                final(self).memory().values,
                old(self).image().first_logical(),
                old(self).image().next_logical(),
            ),
            final(self).memory() == old(self).memory(),
            final(self).free_list() == old(self).free_list(),
    {
        proof {
            crate::upkeep::lemma_steady_cells(
                self.image(),
                self.free_list(),
                self.ht_mapping@,
                self.values_mapping@,
                self.delmap_mapping@,
            );
            crate::upkeep::lemma_steady_dirs(
                self.image(),
                self.free_list(),
                self.ht_mapping@,
                self.values_mapping@,
                self.delmap_mapping@,
            );
            lemma_entry_place(
                self.image(),
                self.values_mapping@,
                self.delmap_mapping@,
                logical_offset,
            );
            lemma_delmap_span(logical_offset);
            reveal(crate::logframe::mark_between);
            assert(crate::logframe::mark_between(
                logical_offset,
                self.image().first_logical(),
                self.image().next_logical(),
            ));
        }
        let ghost before = self.image();
        match floor_entry(&self.delmap_mapping, logical_offset) {
            Some((sector_logical_offset, sector_physical_offset)) => {
                proof {
                    lemma_delmap_floor(
                        self.image().first_logical(),
                        self.image().next_logical(),
                        self.image().next_delmap_physical(),
                        self.delmap_mapping@,
                        logical_offset,
                        sector_logical_offset,
                    );
                }
                let file_offset = sector_physical_offset + (logical_offset
                    - sector_logical_offset) / VALUE_SIZE / DELS_PER_DELMAP * DELMAP_ENTRY_SIZE;
                let offset_within_delmap = (logical_offset / VALUE_SIZE) % DELS_PER_DELMAP;
                let mut cur_delmap = self.tx.get(&mut self.disk, file_offset, DELMAP_ENTRY_SIZE);
                let ghost entry = cur_delmap@;
                let mask: u8 = 1u8 << ((offset_within_delmap % 8) as u8);
                let index = (offset_within_delmap / 8) as usize;
                let byte = cur_delmap[index] & !mask;
                cur_delmap[index] = byte;
                proof {
                    assert(cur_delmap@ =~= without_bit(entry, offset_within_delmap as int));
                    lemma_data_write(
                        self.image(),
                        self.free_list(),
                        self.ht_mapping@,
                        self.values_mapping@,
                        self.delmap_mapping@,
                        (sector_physical_offset - FIRST_SLOT_OFFSET) as u64,
                        file_offset,
                        cur_delmap@,
                    );
                }
                self.tx.set(file_offset, cur_delmap);
                proof {
                    crate::logframe::lemma_delete_keeps(
                        before,
                        self.values_mapping@,
                        self.delmap_mapping@,
                        before.first_logical(),
                        before.next_logical(),
                        before.next_value_physical(),
                        before.next_delmap_physical(),
                        logical_offset,
                    );
                    crate::indexlaws::lemma_kept_sound(before, self.image(), self.ht_mapping@);
                    crate::accounting::lemma_accounted_kept(
                        before,
                        self.image(),
                        self.ht_mapping@,
                        self.values_mapping@,
                        self.delmap_mapping@,
                        0,
                    );
                }
            },
            None => {},
        }
    }
}

impl HashTable {
    /// Takes a sector of the value log (`in_values`) or of the bitmap, whose first
    /// slot or entry lies at `first_place`, out of use: puts it on the free list and
    /// drops its entry `key` from the directory.
    #[verifier::spinoff_prover]
    pub(crate) fn retire_sector(&mut self, key: u64, first_place: u64, in_values: bool)
        requires
            old(self).tx.coherent(old(self).disk@),
            steady(
                old(self).image(),
                old(self).free_list(),
                old(self).ht_mapping@,
                old(self).values_mapping@,
                old(self).delmap_mapping@,
            ),
            in_values
                ==> old(self).values_mapping@.contains_key(key)
                    && old(self).values_mapping@[key] == first_place,
            !in_values
                ==> old(self).delmap_mapping@.contains_key(key)
                    && old(self).delmap_mapping@[key] == first_place,
        ensures
            old(self).image().accounted(
                old(self).ht_mapping@,
                old(self).values_mapping@,
                old(self).delmap_mapping@,
            ) ==> final(self).image().accounted(
                final(self).ht_mapping@,
                final(self).values_mapping@,
                final(self).delmap_mapping@,
            ),
            crate::indexshape::index_kept(
                old(self).image(),
                final(self).image(),
                old(self).ht_mapping@,
            ),
            final(self).tx.coherent(final(self).disk@),
            steady(
                final(self).image(),
                final(self).free_list(),
                final(self).ht_mapping@,
                final(self).values_mapping@,
                final(self).delmap_mapping@,
            ),
            final(self).values_mapping@ == if in_values {
                old(self).values_mapping@.remove(key)
            } else {
                old(self).values_mapping@
            },
            final(self).delmap_mapping@ == if in_values {
                old(self).delmap_mapping@
            } else {
                old(self).delmap_mapping@.remove(key)
            },
            final(self).image() == freed(
                old(self).image(),
                (first_place - if in_values {
                    VALUE_SIZE
                } else {
                    FIRST_SLOT_OFFSET
                }) as u64,
            ),
            final(self).free_list() == free_list_after_free(
                old(self).free_list(),
                (first_place - if in_values {
                    VALUE_SIZE
                } else {
                    FIRST_SLOT_OFFSET
                }) as u64,
            ),
            agree_except(old(self).image(), final(self).image(), retire_touches()),
            final(self).ht_mapping@ == old(self).ht_mapping@,
            final(self).salt == old(self).salt,
            final(self).writes_since_resize == old(self).writes_since_resize,
            final(self).del_balance == old(self).del_balance,
    {
        proof {
            reveal(crate::upkeep::steady);
        }
        let ghost img0 = self.image();
        let ghost chain = self.free_list();
        let ghost values0 = self.values_mapping@;
        let ghost delmap0 = self.delmap_mapping@;
        proof {
            if in_values {
                assert(img0.value_sector_ok(key, values0[key]));
            } else {
                assert(img0.delmap_sector_ok(key, delmap0[key]));
            }
        }
        let base = if in_values {
            first_place - VALUE_SIZE
        } else {
            first_place - FIRST_SLOT_OFFSET
        };
        proof {
            lemma_in_sector(base, (base + 48) as u64);
            lemma_in_sector(base, (base + 56) as u64);
            if img0.changes.contains_key((base + 48) as u64) {
                assert(img0.cell_ok((base + 48) as u64, img0.changes[(base + 48) as u64].len()));
            }
            if img0.changes.contains_key((base + 56) as u64) {
                assert(img0.cell_ok((base + 56) as u64, img0.changes[(base + 56) as u64].len()));
            }
            if chain.contains(base) {
                let i = choose|i: int| 0 <= i < chain.len() && chain[i] == base;
                assert(img0.kind(chain[i]) == 0);
            }
        }
        self.free_sector(base);
        if in_values {
            self.values_mapping.remove(&key);
        } else {
            self.delmap_mapping.remove(&key);
        }
        proof {
            assert forall|other: u64| #[trigger]
                self.values_mapping@.contains_key(other) implies values0.contains_key(other)
                && self.values_mapping@[other] == values0[other] && values0[other] - VALUE_SIZE
                != base by {
                assert(img0.value_sector_ok(other, values0[other]));
            }
            assert forall|other: u64| #[trigger]
                self.delmap_mapping@.contains_key(other) implies delmap0.contains_key(other)
                && self.delmap_mapping@[other] == delmap0[other] && delmap0[other]
                - FIRST_SLOT_OFFSET != base by {
                assert(img0.delmap_sector_ok(other, delmap0[other]));
            }
            lemma_free_steady(
                img0,
                chain,
                self.ht_mapping@,
                values0,
                delmap0,
                base,
                self.values_mapping@,
                self.delmap_mapping@,
            );
            crate::logframe::lemma_freed_agrees(img0, base);
            if img0.accounted(self.ht_mapping@, values0, delmap0) {
                crate::accounting::lemma_accounted_freed(
                    img0,
                    self.image(),
                    self.ht_mapping@,
                    values0,
                    delmap0,
                    base,
                    in_values,
                );
            }
        }
    }

    /// Moves the start of the log on from `logical_offset` by one slot, and frees a
    /// sector that the start leaves behind.
    #[verifier::spinoff_prover]
    #[verifier::rlimit(100)]
    pub(crate) fn advance_start(&mut self, logical_offset: u64)
        requires
            old(self).tx.coherent(old(self).disk@),
            steady(
                old(self).image(),
                old(self).free_list(),
                old(self).ht_mapping@,
                old(self).values_mapping@,
                old(self).delmap_mapping@,
            ),
            old(self).image().first_logical() == logical_offset,
            logical_offset % VALUE_SIZE == 0,
            old(self).image().next_logical() % VALUE_SIZE == 0,
            logical_offset < old(self).image().next_logical(),
            values_follow(
                logical_offset,
                old(self).image().next_logical(),
                old(self).image().next_value_physical(),
                old(self).values_mapping@,
            ),
            delmap_follows(
                logical_offset,
                old(self).image().next_logical(),
                old(self).image().next_delmap_physical(),
                old(self).delmap_mapping@,
            ),
        ensures
            old(self).image().accounted(
                old(self).ht_mapping@,
                old(self).values_mapping@,
                old(self).delmap_mapping@,
            ) ==> final(self).image().accounted(
                final(self).ht_mapping@,
                final(self).values_mapping@,
                final(self).delmap_mapping@,
            ),
            crate::indexshape::index_kept(
                old(self).image(),
                final(self).image(),
                old(self).ht_mapping@,
            ),
            final(self).tx.coherent(final(self).disk@),
            steady(
                final(self).image(),
                final(self).free_list(),
                final(self).ht_mapping@,
                final(self).values_mapping@,
                final(self).delmap_mapping@,
            ),
            final(self).image().first_logical() == logical_offset + VALUE_SIZE,
            final(self).image().next_logical() == old(self).image().next_logical(),
            values_follow(
                (logical_offset + VALUE_SIZE) as u64,
                final(self).image().next_logical(),
                final(self).image().next_value_physical(),
                final(self).values_mapping@,
            ),
            delmap_follows(
                (logical_offset + VALUE_SIZE) as u64,
                final(self).image().next_logical(),
                final(self).image().next_delmap_physical(),
                final(self).delmap_mapping@,
            ),
            agree_except(old(self).image(), final(self).image(), retire_touches()),
            final(self).values_mapping@ == values_after_move(
                old(self).values_mapping@,
                logical_offset,
            ),
            final(self).delmap_mapping@ == delmap_after_move(
                old(self).delmap_mapping@,
                logical_offset,
            ),
            final(self).free_list() == free_list_after_move(
                old(self).free_list(),
                old(self).values_mapping@,
                old(self).delmap_mapping@,
                logical_offset,
            ),
            final(self).ht_mapping@ == old(self).ht_mapping@,
            final(self).salt == old(self).salt,
            final(self).writes_since_resize == old(self).writes_since_resize,
            final(self).del_balance == old(self).del_balance,
    {
        proof {
            reveal(crate::upkeep::steady);
        }
        let new_logical_offset = logical_offset + VALUE_SIZE;
        let ghost img1 = self.image();
        let ghost next = img1.next_logical();
        let ghost place = img1.next_value_physical();
        let ghost entry_place = img1.next_delmap_physical();
        proof {
            lemma_header_readable(img1, 24);
            lemma_num_roundtrip(new_logical_offset);
            lemma_header_write_steady(
                img1,
                self.free_list(),
                self.ht_mapping@,
                self.values_mapping@,
                self.delmap_mapping@,
                24,
                num_bytes(new_logical_offset),
            );
            if img1.accounted(self.ht_mapping@, self.values_mapping@, self.delmap_mapping@) {
                crate::accounting::lemma_accounted_kept(
                    img1,
                    img1.put(24, num_bytes(new_logical_offset)),
                    self.ht_mapping@,
                    self.values_mapping@,
                    self.delmap_mapping@,
                    0,
                );
            }
            lemma_values_retire(logical_offset, next, place, self.values_mapping@);
            lemma_delmap_retire(logical_offset, next, entry_place, self.delmap_mapping@);
            assert(new_logical_offset as int == logical_offset + 128);
        }
        self.tx.set(FIRST_VALUE_LOGICAL_OFFSET, encode_num(new_logical_offset));
        let ghost img2 = self.image();
        proof {
            lemma_agree_put(img1, 24, num_bytes(new_logical_offset));
            crate::logframe::lemma_header_retires(24);
            lemma_agree_widen(img1, img2, set![24u64], retire_touches());
            assert(retire_touches().union(retire_touches()) =~= retire_touches());
            assert(img2.num(24) == new_logical_offset);
            assert(img2.num(16) == next);
            assert(img2.num(32) == place);
            assert(img2.num(48) == entry_place);
        }
        if new_logical_offset % VALUE_SPAN == 0 {
            match floor_entry(&self.values_mapping, logical_offset) {
                Some((sector_logical_offset, sector_physical_offset)) => {
                    proof {
                        lemma_values_floor(
                            logical_offset,
                            next,
                            place,
                            self.values_mapping@,
                            logical_offset,
                            sector_logical_offset,
                        );
                        assert(img2.value_sector_ok(sector_logical_offset, sector_physical_offset));
                    }
                    self.retire_sector(sector_logical_offset, sector_physical_offset, true);
                },
                None => {},
            }
        }
        let ghost img3 = self.image();
        proof {
            if new_logical_offset % VALUE_SPAN != 0 {
                crate::frame::lemma_agree_same(img2);
                lemma_agree_widen(img2, img3, Set::<u64>::empty(), retire_touches());
            }
            lemma_agree_chain(img1, img2, img3, retire_touches(), retire_touches());
            assert(img3.num(24) == new_logical_offset);
            assert(img3.num(16) == next);
            assert(img3.num(32) == place);
            assert(img3.num(48) == entry_place);
        }
        if new_logical_offset % DELMAP_SPAN == 0 {
            match floor_entry(&self.delmap_mapping, logical_offset) {
                Some((sector_logical_offset, sector_physical_offset)) => {
                    proof {
                        lemma_delmap_floor(
                            logical_offset,
                            next,
                            entry_place,
                            self.delmap_mapping@,
                            logical_offset,
                            sector_logical_offset,
                        );
                        assert(img3.delmap_sector_ok(sector_logical_offset, sector_physical_offset));
                    }
                    self.retire_sector(sector_logical_offset, sector_physical_offset, false);
                },
                None => {},
            }
        }
        proof {
            let img4 = self.image();
            if new_logical_offset % DELMAP_SPAN != 0 {
                crate::frame::lemma_agree_same(img3);
                lemma_agree_widen(img3, img4, Set::<u64>::empty(), retire_touches());
            }
            lemma_agree_chain(img1, img3, img4, retire_touches(), retire_touches());
            assert(img4.num(24) == new_logical_offset);
            assert(img4.num(16) == next);
            assert(img4.num(32) == place);
            assert(img4.num(48) == entry_place);
        }
    }

    /// Appends the slot at the start of the log to its end, where the slot is live.
    /// Returns its old and new logical offsets then.
    #[verifier::spinoff_prover]
    pub(crate) fn relocate(&mut self, logical_offset: u64) -> (ret: Option<(u64, u64)>)
        requires
            old(self).wf(),
            old(self).image().first_logical() == logical_offset,
            logical_offset < old(self).image().next_logical(),
            old(self).image().next_logical() + VALUE_SIZE <= VALUE_LIMIT - VALUE_SIZE,
        ensures
            crate::indexshape::index_kept(
                old(self).image(),
                final(self).image(),
                old(self).ht_mapping@,
            ),
            final(self).wf(),
            final(self).image().first_logical() == logical_offset,
            ret == if old(self).image().is_live(old(self).memory().delmap, logical_offset) {
                Some((logical_offset, old(self).image().next_logical()))
            } else {
                None
            },
            ret is None ==> final(self).image() == old(self).image() && final(self).memory()
                == old(self).memory() && final(self).free_list() == old(self).free_list(),
            ret is Some ==> {
                &&& final(self).image().next_logical() == old(self).image().next_logical()
                    + VALUE_SIZE
                &&& final(self).image().value_at(
                    final(self).memory().values,
                    old(self).image().next_logical(),
                ) == old(self).image().value_at(old(self).memory().values, logical_offset)
                &&& final(self).image().is_live(
                    final(self).memory().delmap,
                    old(self).image().next_logical(),
                )
                &&& slots_kept(
                    old(self).image(),
                    old(self).memory().values,
                    final(self).image(),
                    final(self).memory().values,
                    logical_offset,
                    old(self).image().next_logical(),
                )
                &&& marks_kept(
                    old(self).image(),
                    old(self).memory().delmap,
                    final(self).image(),
                    final(self).memory().delmap,
                    logical_offset,
                    old(self).image().next_logical(),
                )
            },
            final(self).memory().values == values_after_copy(
                old(self).memory().values,
                old(self).free_list(),
                old(self).image().file_size(),
                old(self).image().next_logical(),
                ret is Some,
            ),
            final(self).memory().delmap == delmap_after_copy(
                old(self).memory().delmap,
                old(self).free_list(),
                old(self).image().file_size(),
                old(self).image().next_logical(),
                ret is Some,
            ),
            final(self).free_list() == free_list_after_copy(
                old(self).free_list(),
                old(self).image().next_logical(),
                ret is Some,
            ),
            final(self).memory().ht == old(self).memory().ht,
            final(self).memory().salt == old(self).memory().salt,
            final(self).memory().writes_since_resize == old(self).memory().writes_since_resize,
            final(self).memory().del_balance == old(self).memory().del_balance,
    {
        proof {
            crate::logshape::lemma_span_floor_monotone(
                logical_offset,
                logical_offset,
                VALUE_SPAN,
            );
            crate::logshape::lemma_span_floor_monotone(
                logical_offset,
                logical_offset,
                DELMAP_SPAN,
            );
        }
        if !self.is_value_at_offset_deleted(logical_offset) {
            let value = self.get_value(logical_offset);
            let new_offset = self.write_value(value);
            Some((logical_offset, new_offset))
        } else {
            None
        }
    }

    /// Moves the start of the log on by one slot. Where that slot is live, it is
    /// appended to the log again first, and its old and new logical offsets are
    /// returned. A sector that the start of the log leaves behind is freed.
    #[verifier::spinoff_prover]
    pub fn move_one_value(&mut self) -> (ret: Option<(u64, u64)>)
        requires
            old(self).wf(),
            old(self).image().first_logical() < old(self).image().next_logical(),
            old(self).image().next_logical() + VALUE_SIZE <= VALUE_LIMIT - VALUE_SIZE,
        ensures
            crate::indexshape::index_kept(
                old(self).image(),
                final(self).image(),
                old(self).memory().ht,
            ),
            final(self).wf(),
            final(self).image().first_logical() == old(self).image().first_logical() + VALUE_SIZE,
            ret == if old(self).image().is_live(
                old(self).memory().delmap,
                old(self).image().first_logical(),
            ) {
                Some((old(self).image().first_logical(), old(self).image().next_logical()))
            } else {
                None
            },
            final(self).image().next_logical() == if ret is Some {
                old(self).image().next_logical() + VALUE_SIZE
            } else {
                old(self).image().next_logical() as int
            },
            ret is Some ==> final(self).image().value_at(
                final(self).memory().values,
                old(self).image().next_logical(),
            ) == old(self).image().value_at(
                old(self).memory().values,
                old(self).image().first_logical(),
            ),
            ret is Some ==> final(self).image().is_live(
                final(self).memory().delmap,
                old(self).image().next_logical(),
            ),
            slots_kept(
                old(self).image(),
                old(self).memory().values,
                final(self).image(),
                final(self).memory().values,
                (old(self).image().first_logical() + VALUE_SIZE) as u64,
                old(self).image().next_logical(),
            ),
            marks_kept(
                old(self).image(),
                old(self).memory().delmap,
                final(self).image(),
                final(self).memory().delmap,
                (old(self).image().first_logical() + VALUE_SIZE) as u64,
                old(self).image().next_logical(),
            ),
            final(self).memory().values == values_after_move(
                values_after_copy(
                    old(self).memory().values,
                    old(self).free_list(),
                    old(self).image().file_size(),
                    old(self).image().next_logical(),
                    ret is Some,
                ),
                old(self).image().first_logical(),
            ),
            final(self).memory().delmap == delmap_after_move(
                delmap_after_copy(
                    old(self).memory().delmap,
                    old(self).free_list(),
                    old(self).image().file_size(),
                    old(self).image().next_logical(),
                    ret is Some,
                ),
                old(self).image().first_logical(),
            ),
            final(self).free_list() == free_list_after_move(
                free_list_after_copy(
                    old(self).free_list(),
                    old(self).image().next_logical(),
                    ret is Some,
                ),
                values_after_copy(
                    old(self).memory().values,
                    old(self).free_list(),
                    old(self).image().file_size(),
                    old(self).image().next_logical(),
                    ret is Some,
                ),
                delmap_after_copy(
                    old(self).memory().delmap,
                    old(self).free_list(),
                    old(self).image().file_size(),
                    old(self).image().next_logical(),
                    ret is Some,
                ),
                old(self).image().first_logical(),
            ),
            final(self).memory().ht == old(self).memory().ht,
            final(self).memory().salt == old(self).memory().salt,
            final(self).memory().writes_since_resize == old(self).memory().writes_since_resize,
            final(self).memory().del_balance == old(self).memory().del_balance,
    {
        proof {
            crate::upkeep::lemma_steady_cells(
                self.image(),
                self.free_list(),
                self.ht_mapping@,
                self.values_mapping@,
                self.delmap_mapping@,
            );
            lemma_header_readable(self.image(), 24);
        }
        let ghost start = self.image();
        let ghost values0 = self.values_mapping@;
        let ghost delmap0 = self.delmap_mapping@;
        let logical_offset = self.tx.get_num(&mut self.disk, FIRST_VALUE_LOGICAL_OFFSET);
        let ret = self.relocate(logical_offset);
        let ghost middle = self.image();
        let ghost values1 = self.values_mapping@;
        let ghost delmap1 = self.delmap_mapping@;
        proof {
            crate::upkeep::lemma_steady_dirs(
                middle,
                self.free_list(),
                self.ht_mapping@,
                values1,
                delmap1,
            );
        }
        self.advance_start(logical_offset);
        proof {
            let moved = (logical_offset + VALUE_SIZE) as u64;
            let end = start.next_logical();
            let kept = self.values_mapping@;
            let kept_marks = self.delmap_mapping@;
            assert(crate::logframe::extends(kept_marks, delmap1));
            assert(crate::logframe::delmap_sectors_ok(middle, kept_marks)) by {
                assert forall|key: u64| #[trigger]
                    kept_marks.contains_key(key) implies middle.delmap_sector_ok(
                    key,
                    kept_marks[key],
                ) by {
                    assert(delmap1.contains_key(key));
                    assert(middle.delmap_sector_ok(key, delmap1[key]));
                }
            }
            crate::logframe::lemma_retire_keeps_marks(
                middle,
                delmap1,
                self.image(),
                kept_marks,
                moved,
                self.image().next_logical(),
                self.image().next_delmap_physical(),
            );
            crate::logframe::lemma_marks_kept_within(
                middle,
                delmap1,
                self.image(),
                kept_marks,
                moved,
                middle.next_logical(),
                moved,
                end,
                u64::MAX,
            );
            if ret is Some {
                crate::logframe::lemma_marks_kept_within(
                    start,
                    delmap0,
                    middle,
                    delmap1,
                    logical_offset,
                    end,
                    moved,
                    end,
                    u64::MAX,
                );
                lemma_marks_kept_twice(
                    start,
                    delmap0,
                    middle,
                    delmap1,
                    self.image(),
                    kept_marks,
                    moved,
                    end,
                );
            }
            assert(crate::logframe::extends(kept, values1));
            assert(crate::logframe::value_sectors_ok(middle, kept)) by {
                assert forall|key: u64| #[trigger] kept.contains_key(key) implies middle.value_sector_ok(
                    key,
                    kept[key],
                ) by {
                    assert(values1.contains_key(key));
                    assert(middle.value_sector_ok(key, values1[key]));
                }
            }
            crate::logframe::lemma_retire_keeps_slots(
                middle,
                values1,
                self.image(),
                kept,
                moved,
                self.image().next_logical(),
                self.image().next_value_physical(),
            );
            if ret is None {
                crate::logframe::lemma_slots_kept_shorter(
                    middle,
                    values1,
                    self.image(),
                    kept,
                    moved,
                    middle.next_logical(),
                    end,
                );
            }
            if ret is Some {
                crate::logframe::lemma_slots_kept_later(
                    start,
                    values0,
                    middle,
                    values1,
                    logical_offset,
                    moved,
                    end,
                );
                crate::logframe::lemma_slots_kept_shorter(
                    middle,
                    values1,
                    self.image(),
                    self.values_mapping@,
                    moved,
                    middle.next_logical(),
                    end,
                );
                lemma_slots_kept_twice(
                    start,
                    values0,
                    middle,
                    values1,
                    self.image(),
                    self.values_mapping@,
                    moved,
                    end,
                );
                crate::logframe::lemma_slot_between(end, moved, middle.next_logical());
            }
            crate::indexlaws::lemma_kept_sound(start, self.image(), self.ht_mapping@);
        }
        ret
    }
}

} // verus!
