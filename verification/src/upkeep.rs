use vstd::prelude::*;
use crate::codec::lemma_num_roundtrip;
use crate::codec::num_bytes;
use crate::frame::agree_except;
use crate::frame::lemma_agree_put;
use crate::frame::lemma_agree_then_put;
use crate::image::Image;
use crate::indexshape::lemma_free_kinds_frame;
use crate::indexshape::lemma_index_frame;
use crate::indexshape::lemma_index_sector_frame;
use crate::indexshape::slot_offset;
use crate::indexshape::spares_free;
use crate::indexshape::spares_index;
use crate::layout::FIRST_SLOT_OFFSET;
use crate::layout::is_sector_base;
use crate::layout::PAGE_TYPE_DELMAP;
use crate::layout::PAGE_TYPE_HT;
use crate::layout::PAGE_TYPE_VALUES;
use crate::layout::SECTOR_SIZE;
use crate::layout::SLOTS_IN_SECTOR;
use crate::layout::VALUE_SIZE;
use crate::logshape::lemma_dirs_frame;
use crate::logshape::lemma_log_frame;
use crate::logshape::spares_dirs;
use crate::sectors::allocation_touches;
use crate::sectors::free_list_after_free;
use crate::sectors::lemma_sectors_apart;
use crate::sectors::lemma_store_frame;
use crate::sectors::spares_store;
use crate::shape::lemma_cell_readable;
use crate::shape::lemma_in_sector;
use crate::shape::lemma_put_conforming;
use crate::shape::lemma_put_type_free;

verus! {

/// The parts of the engine's soundness that do not concern the value log.
pub open spec fn base_ok(image: Image, chain: Seq<u64>, ht: Seq<([u8; 26], u64)>) -> bool {
    &&& image.sized()
    &&& image.free_chain(chain)
    &&& image.conforming()
    &&& image.free_kinds_ok(chain)
    &&& image.index_ok(ht)
}

/// What holds of the engine throughout an operation on the value log: the allocator
/// is sound, the pending writes respect the layout, the index is sound, and the
/// directories of the log describe sectors of their kinds.
#[verifier::opaque]
pub open spec fn steady(
    image: Image,
    chain: Seq<u64>,
    ht: Seq<([u8; 26], u64)>,
    values: Map<u64, u64>,
    delmap: Map<u64, u64>,
) -> bool {
    &&& base_ok(image, chain, ht)
    &&& image.dirs_ok(values, delmap)
}

/// A write to one of the header fields of the value log leaves the allocator, the
/// layout and the index as they are.
pub proof fn lemma_header_write(
    image: Image,
    chain: Seq<u64>,
    ht: Seq<([u8; 26], u64)>,
    offset: u64,
    data: Seq<u8>,
)
    requires
        base_ok(image, chain, ht),
        offset == 16 || offset == 24 || offset == 32 || offset == 48,
        data.len() == 8,
    ensures
        base_ok(image.put(offset, data), chain, ht),
        agree_except(image, image.put(offset, data), set![offset]),
        image.put(offset, data).file_size() == image.file_size(),
        crate::indexshape::index_kept(image, image.put(offset, data), ht),
        crate::sectorview::sectors_kept(image, image.put(offset, data)),
{
    let after = image.put(offset, data);
    let touched = set![offset];
    lemma_agree_put(image, offset, data);
    crate::sectorview::lemma_sectors_kept(image, after, touched);
    assert(spares_store(touched, chain)) by {
        assert forall|i: int| 0 <= i < chain.len() implies !touched.contains(
            (#[trigger] chain[i] + 48) as u64,
        ) && !touched.contains((chain[i] + 56) as u64) by {
            assert(image.has_sector(chain[i]));
        }
    }
    lemma_store_frame(image, after, touched, chain);
    lemma_put_conforming(image, offset, data);
    assert(spares_free(touched, chain)) by {
        assert forall|i: int| 0 <= i < chain.len() implies !touched.contains(
            (#[trigger] chain[i] + 48) as u64,
        ) by {
            assert(image.has_sector(chain[i]));
        }
    }
    lemma_free_kinds_frame(image, after, touched, chain);
    assert(spares_index(touched, ht)) by {
        assert forall|i: int, at: u64|
            0 <= i < ht.len() && (#[trigger] ht[i]).1 <= at < ht[i].1 + SECTOR_SIZE
                implies !#[trigger] touched.contains(at) by {
            assert(image.index_sector_ok(ht[i].0@, ht[i].1));
        }
    }
    lemma_index_frame(image, after, touched, ht);
}

/// What a steady engine is made of.
pub proof fn lemma_steady_parts(
    image: Image,
    chain: Seq<u64>,
    ht: Seq<([u8; 26], u64)>,
    values: Map<u64, u64>,
    delmap: Map<u64, u64>,
)
    ensures
        steady(image, chain, ht, values, delmap) <==> base_ok(image, chain, ht) && image.dirs_ok(
            values,
            delmap,
        ),
{
    reveal(steady);
}

/// In a steady engine the file has a valid size and the pending writes respect its
/// layout.
pub proof fn lemma_steady_cells(
    image: Image,
    chain: Seq<u64>,
    ht: Seq<([u8; 26], u64)>,
    values: Map<u64, u64>,
    delmap: Map<u64, u64>,
)
    requires
        steady(image, chain, ht, values, delmap),
    ensures
        image.sized(),
        image.conforming(),
        ht.len() > 0,
{
    reveal(steady);
}

/// In a steady engine the directories of the log describe sectors of their kinds.
pub proof fn lemma_steady_dirs(
    image: Image,
    chain: Seq<u64>,
    ht: Seq<([u8; 26], u64)>,
    values: Map<u64, u64>,
    delmap: Map<u64, u64>,
)
    requires
        steady(image, chain, ht, values, delmap),
    ensures
        image.dirs_ok(values, delmap),
        crate::logframe::value_sectors_ok(image, values),
        crate::logframe::delmap_sectors_ok(image, delmap),
{
    reveal(steady);
}

/// A write to one of the header fields of the value log leaves the engine steady.
pub proof fn lemma_header_write_steady(
    image: Image,
    chain: Seq<u64>,
    ht: Seq<([u8; 26], u64)>,
    values: Map<u64, u64>,
    delmap: Map<u64, u64>,
    offset: u64,
    data: Seq<u8>,
)
    requires
        steady(image, chain, ht, values, delmap),
        offset == 16 || offset == 24 || offset == 32 || offset == 48,
        data.len() == 8,
    ensures
        steady(image.put(offset, data), chain, ht, values, delmap),
        agree_except(image, image.put(offset, data), set![offset]),
        image.put(offset, data).file_size() == image.file_size(),
        crate::indexshape::index_kept(image, image.put(offset, data), ht),
        crate::sectorview::sectors_kept(image, image.put(offset, data)),
{
    reveal(crate::upkeep::steady);
    lemma_header_write(image, chain, ht, offset, data);
    let touched = set![offset];
    assert(spares_dirs(touched, values, delmap)) by {
        assert forall|key: u64| #[trigger] values.contains_key(key) implies !touched.contains(
            (values[key] - VALUE_SIZE) as u64,
        ) && !touched.contains((values[key] - VALUE_SIZE + 48) as u64) by {
            assert(image.value_sector_ok(key, values[key]));
        }
        assert forall|key: u64| #[trigger] delmap.contains_key(key) implies !touched.contains(
            (delmap[key] - FIRST_SLOT_OFFSET) as u64,
        ) && !touched.contains((delmap[key] - FIRST_SLOT_OFFSET + 48) as u64) by {
            assert(image.delmap_sector_ok(key, delmap[key]));
        }
    }
    lemma_dirs_frame(image, image.put(offset, data), touched, values, delmap);
}

/// A write into a sector, away from its key and its type, is a write to the key or
/// the type of no sector.
pub proof fn lemma_write_spares_sectors(image: Image, base: u64, place: u64)
    requires
        image.has_sector(base),
        base + 32 <= place < base + SECTOR_SIZE,
        place != base + 48,
    ensures
        forall|other: u64|
            #![trigger image.has_sector(other)]
            image.has_sector(other) ==> !set![place].contains(other) && !set![place].contains(
                (other + 48) as u64,
            ),
{
    assert forall|other: u64| #![trigger image.has_sector(other)] image.has_sector(other) implies {
        &&& !set![place].contains(other)
        &&& !set![place].contains((other + 48) as u64)
    } by {
        if other != base {
            lemma_sectors_apart(other, base);
        }
    }
}

/// A write to a slot of the value log or to an entry of the bitmap leaves the
/// allocator, the layout, the index and the shape of the log as they are.
pub proof fn lemma_data_write(
    image: Image,
    chain: Seq<u64>,
    ht: Seq<([u8; 26], u64)>,
    values: Map<u64, u64>,
    delmap: Map<u64, u64>,
    base: u64,
    place: u64,
    data: Seq<u8>,
)
    requires
        steady(image, chain, ht, values, delmap),
        image.has_sector(base),
        image.kind(base) == PAGE_TYPE_VALUES || image.kind(base) == PAGE_TYPE_DELMAP,
        base + FIRST_SLOT_OFFSET <= place < base + SECTOR_SIZE,
        image.cell_ok(place, data.len()),
    ensures
        steady(image.put(place, data), chain, ht, values, delmap),
        image.log_ok(values, delmap) ==> image.put(place, data).log_ok(values, delmap),
        agree_except(image, image.put(place, data), set![place]),
        image.put(place, data).file_size() == image.file_size(),
        crate::indexshape::index_kept(image, image.put(place, data), ht),
        crate::sectorview::sectors_kept(image, image.put(place, data)),
{
    reveal(crate::upkeep::steady);
    let after = image.put(place, data);
    let touched = set![place];
    lemma_agree_put(image, place, data);
    lemma_write_spares_sectors(image, base, place);
    crate::sectorview::lemma_sectors_kept(image, after, touched);
    assert(spares_store(touched, chain)) by {
        assert forall|i: int| 0 <= i < chain.len() implies !touched.contains(
            (#[trigger] chain[i] + 48) as u64,
        ) && !touched.contains((chain[i] + 56) as u64) by {
            assert(image.has_sector(chain[i]));
            assert(image.kind(chain[i]) == 0);
            lemma_sectors_apart(chain[i], base);
        }
    }
    lemma_store_frame(image, after, touched, chain);
    lemma_in_sector(base, place);
    lemma_put_conforming(image, place, data);
    assert(spares_free(touched, chain)) by {
        assert forall|i: int| 0 <= i < chain.len() implies !touched.contains(
            (#[trigger] chain[i] + 48) as u64,
        ) by {
            assert(image.has_sector(chain[i]));
            assert(image.kind(chain[i]) == 0);
            lemma_sectors_apart(chain[i], base);
        }
    }
    lemma_free_kinds_frame(image, after, touched, chain);
    assert(spares_index(touched, ht)) by {
        assert forall|i: int, at: u64|
            0 <= i < ht.len() && (#[trigger] ht[i]).1 <= at < ht[i].1 + SECTOR_SIZE
                implies !#[trigger] touched.contains(at) by {
            assert(image.index_sector_ok(ht[i].0@, ht[i].1));
            lemma_sectors_apart(ht[i].1, base);
        }
    }
    lemma_index_frame(image, after, touched, ht);
    assert(spares_dirs(touched, values, delmap)) by {
        assert forall|key: u64| #[trigger] values.contains_key(key) implies !touched.contains(
            (values[key] - VALUE_SIZE) as u64,
        ) && !touched.contains((values[key] - VALUE_SIZE + 48) as u64) by {
            assert(image.value_sector_ok(key, values[key]));
            let other = (values[key] - VALUE_SIZE) as u64;
            if other != base {
                lemma_sectors_apart(other, base);
            }
        }
        assert forall|key: u64| #[trigger] delmap.contains_key(key) implies !touched.contains(
            (delmap[key] - FIRST_SLOT_OFFSET) as u64,
        ) && !touched.contains((delmap[key] - FIRST_SLOT_OFFSET + 48) as u64) by {
            assert(image.delmap_sector_ok(key, delmap[key]));
            let other = (delmap[key] - FIRST_SLOT_OFFSET) as u64;
            if other != base {
                lemma_sectors_apart(other, base);
            }
        }
    }
    lemma_dirs_frame(image, after, touched, values, delmap);
    if image.log_ok(values, delmap) {
        lemma_log_frame(image, after, touched, values, delmap);
    }
}

/// An allocation leaves the index and the directories of the log as they are: the
/// sector handed out was free or is new, so it is none of theirs.
pub proof fn lemma_allocation_spares(
    before: Image,
    after: Image,
    chain: Seq<u64>,
    ht: Seq<([u8; 26], u64)>,
    values: Map<u64, u64>,
    delmap: Map<u64, u64>,
    ret: u64,
)
    requires
        steady(before, chain, ht, values, delmap),
        is_sector_base(ret),
        chain.len() > 0 ==> ret == chain[0],
        chain.len() == 0 ==> ret == before.file_size(),
        agree_except(before, after, allocation_touches(ret)),
    ensures
        after.index_ok(ht),
        after.dirs_ok(values, delmap),
        crate::indexshape::same_index(before, after, ht),
        crate::indexshape::index_kept(before, after, ht),
        forall|i: int| 0 <= i < ht.len() ==> (#[trigger] ht[i]).1 != ret,
        crate::logview::log_kept(before, after, values, delmap),
{
    reveal(crate::upkeep::steady);
    let touched = allocation_touches(ret);
    if chain.len() > 0 {
        assert(before.has_sector(chain[0]));
        assert(before.kind(chain[0]) == 0);
    }
    assert(crate::logview::spares_slots(touched, values, delmap)) by {
        assert forall|key: u64, at: u64|
            #![trigger values.contains_key(key), touched.contains(at)]
            values.contains_key(key) && values[key] <= at < values[key] - VALUE_SIZE
                + SECTOR_SIZE implies !touched.contains(at) by {
            assert(before.value_sector_ok(key, values[key]));
            let other = (values[key] - VALUE_SIZE) as u64;
            if other != ret {
                lemma_sectors_apart(other, ret);
            }
        }
        assert forall|key: u64, at: u64|
            #![trigger delmap.contains_key(key), touched.contains(at)]
            delmap.contains_key(key) && delmap[key] <= at < delmap[key] - FIRST_SLOT_OFFSET
                + SECTOR_SIZE implies !touched.contains(at) by {
            assert(before.delmap_sector_ok(key, delmap[key]));
            let other = (delmap[key] - FIRST_SLOT_OFFSET) as u64;
            if other != ret {
                lemma_sectors_apart(other, ret);
            }
        }
    }
    crate::logview::lemma_log_kept(before, after, touched, values, delmap);
    if chain.len() > 0 {
        assert(before.has_sector(chain[0]));
        assert(before.kind(chain[0]) == 0);
    }
    assert forall|i: int| 0 <= i < ht.len() implies (#[trigger] ht[i]).1 != ret by {
        assert(before.index_sector_ok(ht[i].0@, ht[i].1));
    }
    assert(spares_index(touched, ht)) by {
        assert forall|i: int, at: u64|
            0 <= i < ht.len() && (#[trigger] ht[i]).1 <= at < ht[i].1 + SECTOR_SIZE
                implies !#[trigger] touched.contains(at) by {
            assert(before.index_sector_ok(ht[i].0@, ht[i].1));
            if ht[i].1 != ret {
                lemma_sectors_apart(ht[i].1, ret);
            }
        }
    }
    lemma_index_frame(before, after, touched, ht);
    assert(spares_dirs(touched, values, delmap)) by {
        assert forall|key: u64| #[trigger] values.contains_key(key) implies !touched.contains(
            (values[key] - VALUE_SIZE) as u64,
        ) && !touched.contains((values[key] - VALUE_SIZE + 48) as u64) by {
            assert(before.value_sector_ok(key, values[key]));
            let other = (values[key] - VALUE_SIZE) as u64;
            if other != ret {
                lemma_sectors_apart(other, ret);
            }
        }
        assert forall|key: u64| #[trigger] delmap.contains_key(key) implies !touched.contains(
            (delmap[key] - FIRST_SLOT_OFFSET) as u64,
        ) && !touched.contains((delmap[key] - FIRST_SLOT_OFFSET + 48) as u64) by {
            assert(before.delmap_sector_ok(key, delmap[key]));
            let other = (delmap[key] - FIRST_SLOT_OFFSET) as u64;
            if other != ret {
                lemma_sectors_apart(other, ret);
            }
        }
    }
    lemma_dirs_frame(before, after, touched, values, delmap);
}

/// The image after the sector at `base` was put on the free list.
pub open spec fn freed(image: Image, base: u64) -> Image {
    image.put_num((base + 48) as u64, 0).put_num((base + 56) as u64, image.free_head()).put_num(
        8,
        base,
    )
}

/// Freeing a sector of the value log or of the bitmap, and dropping it from its
/// directory, leaves the engine steady.
pub proof fn lemma_free_steady(
    image: Image,
    chain: Seq<u64>,
    ht: Seq<([u8; 26], u64)>,
    values: Map<u64, u64>,
    delmap: Map<u64, u64>,
    base: u64,
    fewer_values: Map<u64, u64>,
    fewer_delmap: Map<u64, u64>,
)
    requires
        steady(image, chain, ht, values, delmap),
        image.has_sector(base),
        image.kind(base) == PAGE_TYPE_VALUES || image.kind(base) == PAGE_TYPE_DELMAP,
        freed(image, base).sized(),
        freed(image, base).free_chain(free_list_after_free(chain, base)),
        forall|key: u64| #[trigger]
            fewer_values.contains_key(key) ==> values.contains_key(key) && fewer_values[key]
                == values[key] && values[key] - VALUE_SIZE != base,
        forall|key: u64| #[trigger]
            fewer_delmap.contains_key(key) ==> delmap.contains_key(key) && fewer_delmap[key]
                == delmap[key] && delmap[key] - FIRST_SLOT_OFFSET != base,
    ensures
        steady(freed(image, base), free_list_after_free(chain, base), ht, fewer_values, fewer_delmap),
        agree_except(image, freed(image, base), set![(base + 48) as u64, (base + 56) as u64, 8u64]),
        freed(image, base).file_size() == image.file_size(),
        crate::indexshape::index_kept(image, freed(image, base), ht),
{
    reveal(crate::upkeep::steady);
    let one = image.put_num((base + 48) as u64, 0);
    let two = one.put_num((base + 56) as u64, image.free_head());
    let after = two.put_num(8, base);
    let grown = free_list_after_free(chain, base);
    let touched = set![(base + 48) as u64, (base + 56) as u64, 8u64];
    crate::codec::lemma_num_roundtrip(0);
    crate::codec::lemma_num_roundtrip(image.free_head());
    crate::codec::lemma_num_roundtrip(base);
    lemma_put_type_free(image, base, num_bytes(0));
    lemma_in_sector(base, (base + 56) as u64);
    lemma_put_conforming(one, (base + 56) as u64, num_bytes(image.free_head()));
    lemma_put_conforming(two, 8, num_bytes(base));
    lemma_agree_put(image, (base + 48) as u64, num_bytes(0));
    lemma_agree_then_put(
        image,
        one,
        set![(base + 48) as u64],
        (base + 56) as u64,
        num_bytes(image.free_head()),
    );
    lemma_agree_then_put(
        image,
        two,
        set![(base + 48) as u64].insert((base + 56) as u64),
        8,
        num_bytes(base),
    );
    assert(set![(base + 48) as u64].insert((base + 56) as u64).insert(8u64) =~= touched);
    assert(after.kind(base) == 0);
    assert forall|i: int| 0 <= i < grown.len() implies after.kind(#[trigger] grown[i]) == 0 by {
        if i > 0 {
            let other = chain[i - 1];
            assert(grown[i] == other);
            assert(image.has_sector(other));
            assert(image.kind(other) == 0);
            lemma_sectors_apart(other, base);
            let at = (other + 48) as u64;
            assert(after.read(at, 8) == image.read(at, 8));
        }
    }
    assert(spares_index(touched, ht)) by {
        assert forall|i: int, at: u64|
            0 <= i < ht.len() && (#[trigger] ht[i]).1 <= at < ht[i].1 + SECTOR_SIZE
                implies !#[trigger] touched.contains(at) by {
            assert(image.index_sector_ok(ht[i].0@, ht[i].1));
            lemma_sectors_apart(ht[i].1, base);
        }
    }
    lemma_index_frame(image, after, touched, ht);
    assert(image.dirs_ok(fewer_values, fewer_delmap)) by {
        assert forall|key: u64| #[trigger]
            fewer_values.contains_key(key) implies image.value_sector_ok(
            key,
            fewer_values[key],
        ) by {
            assert(values.contains_key(key));
            assert(image.value_sector_ok(key, values[key]));
        }
        assert forall|key: u64| #[trigger]
            fewer_delmap.contains_key(key) implies image.delmap_sector_ok(
            key,
            fewer_delmap[key],
        ) by {
            assert(delmap.contains_key(key));
            assert(image.delmap_sector_ok(key, delmap[key]));
        }
    }
    assert(spares_dirs(touched, fewer_values, fewer_delmap)) by {
        assert forall|key: u64| #[trigger]
            fewer_values.contains_key(key) implies !touched.contains(
            (fewer_values[key] - VALUE_SIZE) as u64,
        ) && !touched.contains((fewer_values[key] - VALUE_SIZE + 48) as u64) by {
            assert(image.value_sector_ok(key, fewer_values[key]));
            lemma_sectors_apart((fewer_values[key] - VALUE_SIZE) as u64, base);
        }
        assert forall|key: u64| #[trigger]
            fewer_delmap.contains_key(key) implies !touched.contains(
            (fewer_delmap[key] - FIRST_SLOT_OFFSET) as u64,
        ) && !touched.contains((fewer_delmap[key] - FIRST_SLOT_OFFSET + 48) as u64) by {
            assert(image.delmap_sector_ok(key, fewer_delmap[key]));
            lemma_sectors_apart((fewer_delmap[key] - FIRST_SLOT_OFFSET) as u64, base);
        }
    }
    lemma_dirs_frame(image, after, touched, fewer_values, fewer_delmap);
}

/// An entry of a sector of the index has its place in the sector, where it can be
/// read and written.
pub proof fn lemma_slot_cell(image: Image, base: u64, slot: int)
    requires
        image.sized(),
        image.conforming(),
        image.has_sector(base),
        image.kind(base) == PAGE_TYPE_HT,
        0 <= slot < SLOTS_IN_SECTOR,
    ensures
        base + FIRST_SLOT_OFFSET <= slot_offset(base, slot),
        slot_offset(base, slot) + 32 <= base + SECTOR_SIZE,
        image.cell_ok(slot_offset(base, slot) as u64, 32),
        image.readable(slot_offset(base, slot) as u64, 32),
        image.writable(slot_offset(base, slot) as u64, 32),
{
    let at = slot_offset(base, slot) as u64;
    lemma_in_sector(base, at);
    assert(at - base == 64 + 32 * slot);
    assert((at - base) % 32 == 0);
    if image.changes.contains_key(at) {
        assert(image.cell_ok(at, image.changes[at].len()));
    }
    lemma_cell_readable(image, at, 32);
}

/// The occupancy of a sector of the index can be read and written as a number.
pub proof fn lemma_occupancy_cell(image: Image, base: u64)
    requires
        image.sized(),
        image.conforming(),
        image.has_sector(base),
        image.kind(base) == PAGE_TYPE_HT,
    ensures
        image.cell_ok((base + 32) as u64, 8),
        image.readable((base + 32) as u64, 8),
        image.writable((base + 32) as u64, 8),
{
    let at = (base + 32) as u64;
    lemma_in_sector(base, at);
    if image.changes.contains_key(at) {
        assert(image.cell_ok(at, image.changes[at].len()));
    }
    lemma_cell_readable(image, at, 8);
}

/// Like [`steady`], but for the sector of the index at `base`, which need not record
/// the number of its entries in use: what holds while an operation works on it.
pub open spec fn loose(
    image: Image,
    chain: Seq<u64>,
    ht: Seq<([u8; 26], u64)>,
    values: Map<u64, u64>,
    delmap: Map<u64, u64>,
    base: u64,
) -> bool {
    &&& image.sized()
    &&& image.free_chain(chain)
    &&& image.conforming()
    &&& image.free_kinds_ok(chain)
    &&& image.dirs_ok(values, delmap)
    &&& ht.len() > 0
    &&& ht[0].0@ == crate::codec::zeros(26)
    &&& crate::indexshape::ascending(ht)
    &&& forall|j: int|
        0 <= j < ht.len() ==> {
            &&& image.has_sector((#[trigger] ht[j]).1)
            &&& image.kind(ht[j].1) == PAGE_TYPE_HT
            &&& image.read(ht[j].1, 26) == ht[j].0@
            &&& ht[j].1 != base ==> image.occupancy(ht[j].1) == image.occupied(
                ht[j].1,
                SLOTS_IN_SECTOR as int,
            )
        }
}

/// A steady engine is loose about any sector.
pub proof fn lemma_loosen(
    image: Image,
    chain: Seq<u64>,
    ht: Seq<([u8; 26], u64)>,
    values: Map<u64, u64>,
    delmap: Map<u64, u64>,
    base: u64,
)
    requires
        steady(image, chain, ht, values, delmap),
    ensures
        loose(image, chain, ht, values, delmap, base),
{
    reveal(crate::upkeep::steady);
    assert forall|j: int| 0 <= j < ht.len() implies {
        &&& image.has_sector((#[trigger] ht[j]).1)
        &&& image.kind(ht[j].1) == PAGE_TYPE_HT
        &&& image.read(ht[j].1, 26) == ht[j].0@
        &&& ht[j].1 != base ==> image.occupancy(ht[j].1) == image.occupied(
            ht[j].1,
            SLOTS_IN_SECTOR as int,
        )
    } by {
        assert(image.index_sector_ok(ht[j].0@, ht[j].1));
    }
}

/// An engine that is loose about a sector which does record the number of its
/// entries in use is steady.
pub proof fn lemma_tighten(
    image: Image,
    chain: Seq<u64>,
    ht: Seq<([u8; 26], u64)>,
    values: Map<u64, u64>,
    delmap: Map<u64, u64>,
    base: u64,
)
    requires
        loose(image, chain, ht, values, delmap, base),
        image.occupancy(base) == image.occupied(base, SLOTS_IN_SECTOR as int),
    ensures
        steady(image, chain, ht, values, delmap),
{
    reveal(crate::upkeep::steady);
    assert forall|j: int| 0 <= j < ht.len() implies image.index_sector_ok(
        #[trigger] ht[j].0@,
        ht[j].1,
    ) by {
        assert(image.has_sector(ht[j].1));
    }
}

/// A write to an entry or to the occupancy of the sector of the index that an
/// operation works on leaves the engine loose about that sector.
pub proof fn lemma_loose_write(
    image: Image,
    chain: Seq<u64>,
    ht: Seq<([u8; 26], u64)>,
    values: Map<u64, u64>,
    delmap: Map<u64, u64>,
    base: u64,
    place: u64,
    data: Seq<u8>,
)
    requires
        loose(image, chain, ht, values, delmap, base),
        image.has_sector(base),
        image.kind(base) == PAGE_TYPE_HT,
        base + 32 <= place < base + SECTOR_SIZE,
        place != base + 48,
        image.cell_ok(place, data.len()),
    ensures
        loose(image.put(place, data), chain, ht, values, delmap, base),
        agree_except(image, image.put(place, data), set![place]),
        image.put(place, data).file_size() == image.file_size(),
        image.put(place, data).has_sector(base),
        image.put(place, data).kind(base) == PAGE_TYPE_HT,
        crate::logview::log_kept(image, image.put(place, data), values, delmap),
        crate::sectorview::sectors_kept(image, image.put(place, data)),
{
    let after = image.put(place, data);
    let touched = set![place];
    lemma_agree_put(image, place, data);
    lemma_write_spares_sectors(image, base, place);
    crate::sectorview::lemma_sectors_kept(image, after, touched);
    assert(crate::logview::spares_slots(touched, values, delmap)) by {
        assert forall|key: u64, at: u64|
            #![trigger values.contains_key(key), touched.contains(at)]
            values.contains_key(key) && values[key] <= at < values[key] - VALUE_SIZE
                + SECTOR_SIZE implies !touched.contains(at) by {
            assert(image.value_sector_ok(key, values[key]));
            lemma_sectors_apart((values[key] - VALUE_SIZE) as u64, base);
        }
        assert forall|key: u64, at: u64|
            #![trigger delmap.contains_key(key), touched.contains(at)]
            delmap.contains_key(key) && delmap[key] <= at < delmap[key] - FIRST_SLOT_OFFSET
                + SECTOR_SIZE implies !touched.contains(at) by {
            assert(image.delmap_sector_ok(key, delmap[key]));
            lemma_sectors_apart((delmap[key] - FIRST_SLOT_OFFSET) as u64, base);
        }
    }
    crate::logview::lemma_log_kept(image, after, touched, values, delmap);
    assert(spares_store(touched, chain)) by {
        assert forall|c: int| 0 <= c < chain.len() implies !touched.contains(
            (#[trigger] chain[c] + 48) as u64,
        ) && !touched.contains((chain[c] + 56) as u64) by {
            assert(image.has_sector(chain[c]));
            assert(image.kind(chain[c]) == 0);
            lemma_sectors_apart(chain[c], base);
        }
    }
    lemma_store_frame(image, after, touched, chain);
    lemma_in_sector(base, place);
    lemma_put_conforming(image, place, data);
    assert(spares_free(touched, chain)) by {
        assert forall|c: int| 0 <= c < chain.len() implies !touched.contains(
            (#[trigger] chain[c] + 48) as u64,
        ) by {
            assert(image.has_sector(chain[c]));
            assert(image.kind(chain[c]) == 0);
            lemma_sectors_apart(chain[c], base);
        }
    }
    lemma_free_kinds_frame(image, after, touched, chain);
    assert(after.read((base + 48) as u64, 8) == image.read((base + 48) as u64, 8));
    assert forall|j: int| 0 <= j < ht.len() implies {
        &&& after.has_sector((#[trigger] ht[j]).1)
        &&& after.kind(ht[j].1) == PAGE_TYPE_HT
        &&& after.read(ht[j].1, 26) == ht[j].0@
        &&& ht[j].1 != base ==> after.occupancy(ht[j].1) == after.occupied(
            ht[j].1,
            SLOTS_IN_SECTOR as int,
        )
    } by {
        let other = ht[j].1;
        assert(image.has_sector(other));
        if other != base {
            lemma_sectors_apart(other, base);
            assert(image.index_sector_ok(ht[j].0@, other));
            lemma_index_sector_frame(image, after, touched, ht[j].0@, other);
        } else {
            assert(after.read(base, 26) == image.read(base, 26));
        }
    }
    assert(spares_dirs(touched, values, delmap)) by {
        assert forall|key: u64| #[trigger] values.contains_key(key) implies !touched.contains(
            (values[key] - VALUE_SIZE) as u64,
        ) && !touched.contains((values[key] - VALUE_SIZE + 48) as u64) by {
            assert(image.value_sector_ok(key, values[key]));
            lemma_sectors_apart((values[key] - VALUE_SIZE) as u64, base);
        }
        assert forall|key: u64| #[trigger] delmap.contains_key(key) implies !touched.contains(
            (delmap[key] - FIRST_SLOT_OFFSET) as u64,
        ) && !touched.contains((delmap[key] - FIRST_SLOT_OFFSET + 48) as u64) by {
            assert(image.delmap_sector_ok(key, delmap[key]));
            lemma_sectors_apart((delmap[key] - FIRST_SLOT_OFFSET) as u64, base);
        }
    }
    lemma_dirs_frame(image, after, touched, values, delmap);
}

} // verus!
