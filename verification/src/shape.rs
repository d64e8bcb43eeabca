use vstd::prelude::*;
use crate::image::Image;
use crate::layout::FILE_SIZE_OFFSET;
use crate::layout::FIRST_SECTOR_OFFSET;
use crate::layout::is_sector_base;
use crate::layout::page_base;
use crate::layout::PAGE_SIZE;
use crate::layout::PAGE_TYPE_DELMAP;
use crate::layout::PAGE_TYPE_FREE;
use crate::layout::PAGE_TYPE_HT;
use crate::layout::PAGE_TYPE_VALUES;
use crate::layout::sector_base;
use crate::layout::SECTOR_SIZE;
use crate::layout::SECTOR_TYPE_OFFSET;
use crate::layout::within_page;
use crate::transaction::flushable;

verus! {

/// Whether the file header holds a field of `len` bytes at `offset`.
pub open spec fn header_cell(offset: u64, len: nat) -> bool {
    (offset == 0 || offset == 8 || offset == 16 || offset == 24 || offset == 32 || offset == 48)
        && len == 8
}

/// Whether a sector of the hash index holds a field or an entry of `len` bytes at
/// `rel` bytes from its start: the key, the padding after it, the occupancy, a spare
/// field, the type, the free-list pointer, or one of the entries.
pub open spec fn index_cell(rel: int, len: nat) -> bool {
    ||| (rel == 0 && len == 26)
    ||| (rel == 26 && len == 6)
    ||| (rel == 32 && len == 8)
    ||| (rel == 40 && len == 8)
    ||| (rel == 48 && len == 8)
    ||| (rel == 56 && len == 8)
    ||| (64 <= rel < SECTOR_SIZE && rel % 32 == 0 && len == 32)
}

/// Whether a sector of the value log holds a field or a slot of `len` bytes at `rel`
/// bytes from its start.
pub open spec fn values_cell(rel: int, len: nat) -> bool {
    ||| (rel == 0 && len == 8)
    ||| (rel == 8 && len == 40)
    ||| (rel == 48 && len == 8)
    ||| (rel == 56 && len == 8)
    ||| (rel == 64 && len == 64)
    ||| (128 <= rel < SECTOR_SIZE && rel % 128 == 0 && len == 128)
}

/// Whether a sector of the deletion bitmap holds a field or an entry of `len` bytes
/// at `rel` bytes from its start.
pub open spec fn delmap_cell(rel: int, len: nat) -> bool {
    ||| (rel == 0 && len == 8)
    ||| (rel == 8 && len == 40)
    ||| (rel == 48 && len == 8)
    ||| (rel == 56 && len == 8)
    ||| (64 <= rel < SECTOR_SIZE && rel % 32 == 0 && len == 32)
}

/// Whether a sector of the given type may hold a pending write of `len` bytes at
/// `rel` bytes from its start. A free sector may still hold the writes it got as a
/// sector of the value log or of the bitmap.
pub open spec fn sector_cell(kind: u64, rel: int, len: nat) -> bool {
    if kind == PAGE_TYPE_HT {
        index_cell(rel, len)
    } else if kind == PAGE_TYPE_VALUES {
        values_cell(rel, len)
    } else if kind == PAGE_TYPE_DELMAP {
        delmap_cell(rel, len)
    } else if kind == PAGE_TYPE_FREE {
        values_cell(rel, len) || delmap_cell(rel, len)
    } else {
        false
    }
}

/// Whether `offset` is where a sector keeps its type.
pub open spec fn is_type_cell(offset: u64) -> bool {
    offset >= FIRST_SECTOR_OFFSET && (offset - FIRST_SECTOR_OFFSET) % (SECTOR_SIZE as int)
        == SECTOR_TYPE_OFFSET
}

impl Image {
    /// Whether a write of `len` bytes at `offset` respects the layout of the file: in
    /// the header it is one of the fields, elsewhere it lies in a sector of the file
    /// and is a field or an entry of a sector of that type.
    pub open spec fn cell_ok(self, offset: u64, len: nat) -> bool {
        if offset < FIRST_SECTOR_OFFSET {
            header_cell(offset, len)
        } else {
            &&& sector_base(offset) + SECTOR_SIZE <= self.file_size()
            &&& sector_cell(self.kind(sector_base(offset)), offset - sector_base(offset), len)
        }
    }

    /// Whether every pending write respects the layout of the file.
    pub open spec fn conforming(self) -> bool {
        forall|k: u64| #[trigger]
            self.changes.contains_key(k) ==> self.cell_ok(k, self.changes[k].len())
    }
}

/// A field or an entry of a sector lies within the sector and within one page.
pub proof fn lemma_sector_cell_in_page(kind: u64, base: u64, rel: int, len: nat)
    requires
        is_sector_base(base),
        sector_cell(kind, rel, len),
        base + SECTOR_SIZE <= u64::MAX,
    ensures
        0 <= rel,
        rel + len <= SECTOR_SIZE,
        within_page((base + rel) as u64, len),
        sector_base((base + rel) as u64) == base,
        page_base((base + rel) as u64) + PAGE_SIZE <= base + SECTOR_SIZE,
{
    let o = (base + rel) as u64;
    assert(base % 4096 == 0);
    if rel >= 64 {
        if len == 32 {
            assert(rel % 32 == 0);
            assert(o % 4096 + 32 <= 4096);
        }
        if len == 128 {
            assert(rel % 128 == 0);
            assert(o % 4096 + 128 <= 4096);
        }
    }
}

/// A write that respects the layout can be read back at its place, and a place
/// without a pending write can be read from the file.
pub proof fn lemma_cell_readable(image: Image, offset: u64, len: nat)
    requires
        image.conforming(),
        image.sized(),
        image.cell_ok(offset, len),
        image.changes.contains_key(offset) ==> image.changes[offset].len() == len,
    ensures
        image.readable(offset, len),
{
    if offset >= FIRST_SECTOR_OFFSET {
        let base = sector_base(offset);
        lemma_sector_cell_in_page(image.kind(base), base, offset - base, len);
    }
}

/// With pending writes that respect the layout, the transaction can be flushed.
pub proof fn lemma_conforming_flushable(image: Image)
    requires
        image.conforming(),
        image.sized(),
    ensures
        flushable(image.changes, image.disk),
{
    assert forall|k: u64| #[trigger] image.changes.contains_key(k) implies within_page(
        k,
        image.changes[k].len(),
    ) && page_base(k) + PAGE_SIZE <= image.disk.len() by {
        let len = image.changes[k].len();
        assert(image.cell_ok(k, len));
        if k >= FIRST_SECTOR_OFFSET {
            let base = sector_base(k);
            lemma_sector_cell_in_page(image.kind(base), base, k - base, len);
        }
    }
}

/// A write that respects the layout, and is no sector type or file size, keeps the
/// pending writes in line with the layout.
pub proof fn lemma_put_conforming(image: Image, offset: u64, data: Seq<u8>)
    requires
        image.conforming(),
        image.cell_ok(offset, data.len()),
        !is_type_cell(offset),
        offset != FILE_SIZE_OFFSET,
    ensures
        image.put(offset, data).conforming(),
        image.put(offset, data).file_size() == image.file_size(),
        forall|base: u64| #[trigger] image.put(offset, data).kind(base)
            == image.kind(base) || !is_sector_base(base),
{
    let after = image.put(offset, data);
    assert forall|base: u64| is_sector_base(base) implies #[trigger] after.kind(base)
        == image.kind(base) by {
        assert((base + SECTOR_TYPE_OFFSET) as u64 != offset);
    }
    assert forall|k: u64| #[trigger] after.changes.contains_key(k) implies after.cell_ok(
        k,
        after.changes[k].len(),
    ) by {
        if k != offset {
            assert(image.changes.contains_key(k));
            assert(image.cell_ok(k, image.changes[k].len()));
        }
        if k >= FIRST_SECTOR_OFFSET {
            lemma_sector_base_is_base(k);
            assert(after.kind(sector_base(k)) == image.kind(sector_base(k)));
        }
    }
}

/// The start of the sector that holds an offset is the start of a sector.
pub proof fn lemma_sector_base_is_base(offset: u64)
    requires
        offset >= FIRST_SECTOR_OFFSET,
    ensures
        is_sector_base(sector_base(offset)),
        sector_base(offset) <= offset < sector_base(offset) + SECTOR_SIZE,
{
}

/// An offset within a sector has that sector as its own.
pub proof fn lemma_in_sector(base: u64, offset: u64)
    requires
        is_sector_base(base),
        base <= offset < base + SECTOR_SIZE,
    ensures
        sector_base(offset) == base,
{
}

/// Offsets outside a sector belong to another sector.
pub proof fn lemma_outside_sector(base: u64, offset: u64)
    requires
        is_sector_base(base),
        offset >= FIRST_SECTOR_OFFSET,
        !(base <= offset < base + SECTOR_SIZE),
    ensures
        sector_base(offset) != base,
        is_sector_base(sector_base(offset)),
        sector_base(offset) + SECTOR_SIZE <= base || base + SECTOR_SIZE <= sector_base(offset),
{
}

/// After a change that left all reads outside one sector and two header fields as
/// they were, the pending writes respect the layout if those in the sector do.
pub proof fn lemma_conforming_after_allocation(before: Image, after: Image, ret: u64)
    requires
        before.conforming(),
        before.sized(),
        after.sized(),
        is_sector_base(ret),
        before.file_size() <= after.file_size(),
        forall|offset: u64, len: nat|
            !(ret <= offset < ret + SECTOR_SIZE) && offset != 0 && offset != 8 && offset + len
                <= before.file_size() ==> #[trigger] after.read(offset, len) == before.read(
                offset,
                len,
            ),
        forall|k: u64|
            !(ret <= k < ret + SECTOR_SIZE) && k != 0 && k != 8 ==> (
            #[trigger] after.changes.contains_key(k) <==> before.changes.contains_key(k)),
        forall|k: u64|
            ret <= k < ret + SECTOR_SIZE && #[trigger] after.changes.contains_key(k)
                ==> after.cell_ok(k, after.changes[k].len()),
    ensures
        after.conforming(),
{
    assert forall|k: u64| #[trigger] after.changes.contains_key(k) implies after.cell_ok(
        k,
        after.changes[k].len(),
    ) by {
        if ret <= k < ret + SECTOR_SIZE {
        } else if k == 0 || k == 8 {
        } else {
            assert(before.changes.contains_key(k));
            let len = before.changes[k].len();
            assert(before.cell_ok(k, len));
            if k >= FIRST_SECTOR_OFFSET {
                let base = sector_base(k);
                lemma_outside_sector(ret, k);
                lemma_sector_cell_in_page(before.kind(base), base, k - base, len);
                assert(after.read(k, len) == before.read(k, len));
                assert(after.read((base + SECTOR_TYPE_OFFSET) as u64, 8) == before.read(
                    (base + SECTOR_TYPE_OFFSET) as u64,
                    8,
                ));
            } else {
                assert(after.read(k, len) == before.read(k, len));
            }
        }
    }
}

/// Marking a sector of the value log or of the bitmap as free keeps the pending writes
/// in line with the layout: a free sector may hold the writes of either kind.
pub proof fn lemma_put_type_free(image: Image, base: u64, data: Seq<u8>)
    requires
        image.conforming(),
        image.has_sector(base),
        image.kind(base) == PAGE_TYPE_VALUES || image.kind(base) == PAGE_TYPE_DELMAP,
        data.len() == 8,
        crate::codec::num_of(data) == PAGE_TYPE_FREE,
    ensures
        image.put((base + SECTOR_TYPE_OFFSET) as u64, data).conforming(),
        image.put((base + SECTOR_TYPE_OFFSET) as u64, data).kind(base) == PAGE_TYPE_FREE,
        image.put((base + SECTOR_TYPE_OFFSET) as u64, data).file_size() == image.file_size(),
{
    let at = (base + SECTOR_TYPE_OFFSET) as u64;
    let after = image.put(at, data);
    lemma_in_sector(base, at);
    assert forall|k: u64| #[trigger] after.changes.contains_key(k) implies after.cell_ok(
        k,
        after.changes[k].len(),
    ) by {
        if k != at {
            assert(image.changes.contains_key(k));
            assert(image.cell_ok(k, image.changes[k].len()));
            if k >= FIRST_SECTOR_OFFSET {
                lemma_sector_base_is_base(k);
                let own = sector_base(k);
                if own != base {
                    assert((own + SECTOR_TYPE_OFFSET) as u64 != at);
                    assert(after.kind(own) == image.kind(own));
                }
            }
        }
    }
}

} // verus!
