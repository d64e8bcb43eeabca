use vstd::prelude::*;
use crate::frame::agree_except;
use crate::image::Image;
use crate::layout::FIRST_SECTOR_OFFSET;
use crate::layout::FIRST_SLOT_OFFSET;
use crate::layout::is_sector_base;
use crate::layout::PAGE_TYPE_DELMAP;
use crate::layout::PAGE_TYPE_FREE;
use crate::layout::PAGE_TYPE_HT;
use crate::layout::PAGE_TYPE_VALUES;
use crate::layout::SECTOR_SIZE;
use crate::layout::VALUE_SIZE;
use crate::sectors::allocation_touches;
use crate::sectors::lemma_sectors_apart;
use crate::sectorview::lemma_kept_sector;
use crate::sectorview::sectors_kept;

verus! {

/// Whether the directory of the index lists the sector at `base`.
pub open spec fn listed(ht: Seq<([u8; 26], u64)>, base: u64) -> bool {
    exists|i: int| 0 <= i < ht.len() && (#[trigger] ht[i]).1 == base
}

impl Image {
    /// Whether the directories account for the sector at `base`: it has a known
    /// type, and a sector of the index, of the value log or of the bitmap stands in
    /// the directory of its kind, under its key.
    pub open spec fn sector_accounted(
        self,
        ht: Seq<([u8; 26], u64)>,
        values: Map<u64, u64>,
        delmap: Map<u64, u64>,
        base: u64,
    ) -> bool {
        &&& self.kind(base) <= 3
        &&& self.kind(base) == PAGE_TYPE_HT ==> listed(ht, base)
        &&& self.kind(base) == PAGE_TYPE_VALUES ==> values.contains_key(self.num(base))
            && values[self.num(base)] == base + VALUE_SIZE
        &&& self.kind(base) == PAGE_TYPE_DELMAP ==> delmap.contains_key(self.num(base))
            && delmap[self.num(base)] == base + FIRST_SLOT_OFFSET
    }

    /// Whether the directories account for every sector of the file but the one at
    /// `skip`, and the first sector of the file is the first of the index.
    #[verifier::opaque]
    pub open spec fn accounted_but(
        self,
        ht: Seq<([u8; 26], u64)>,
        values: Map<u64, u64>,
        delmap: Map<u64, u64>,
        skip: u64,
    ) -> bool {
        &&& ht.len() > 0
        &&& ht[0].1 == FIRST_SECTOR_OFFSET
        &&& forall|base: u64|
            #![trigger self.has_sector(base)]
            self.has_sector(base) && base != skip ==> self.sector_accounted(
                ht,
                values,
                delmap,
                base,
            )
    }

    /// Whether the directories account for every sector of the file, and the first
    /// sector of the file is the first of the index.
    pub open spec fn accounted(
        self,
        ht: Seq<([u8; 26], u64)>,
        values: Map<u64, u64>,
        delmap: Map<u64, u64>,
    ) -> bool {
        self.accounted_but(ht, values, delmap, 0)
    }
}

/// The directories of a file of one sector, which belongs to the index, account for
/// it if the directory of the index lists it first.
pub proof fn lemma_accounted_single(
    image: Image,
    ht: Seq<([u8; 26], u64)>,
    values: Map<u64, u64>,
    delmap: Map<u64, u64>,
)
    requires
        ht.len() > 0,
        ht[0].1 == FIRST_SECTOR_OFFSET,
        image.kind(FIRST_SECTOR_OFFSET) == PAGE_TYPE_HT,
        image.file_size() == FIRST_SECTOR_OFFSET + SECTOR_SIZE,
    ensures
        image.accounted(ht, values, delmap),
{
    reveal(Image::accounted_but);
    assert forall|base: u64|
        #![trigger image.has_sector(base)]
        image.has_sector(base) && base != 0 implies image.sector_accounted(
        ht,
        values,
        delmap,
        base,
    ) by {
        assert(base == FIRST_SECTOR_OFFSET);
        assert(listed(ht, base));
    }
}

/// The sectors stay accounted for where they are kept.
pub proof fn lemma_accounted_kept(
    before: Image,
    after: Image,
    ht: Seq<([u8; 26], u64)>,
    values: Map<u64, u64>,
    delmap: Map<u64, u64>,
    skip: u64,
)
    requires
        before.accounted_but(ht, values, delmap, skip),
        sectors_kept(before, after),
    ensures
        after.accounted_but(ht, values, delmap, skip),
{
    reveal(Image::accounted_but);
    assert forall|base: u64|
        #![trigger after.has_sector(base)]
        after.has_sector(base) && base != skip implies after.sector_accounted(
        ht,
        values,
        delmap,
        base,
    ) by {
        lemma_kept_sector(before, after, base);
        assert(before.has_sector(base));
        assert(before.sector_accounted(ht, values, delmap, base));
    }
}

/// After an allocation the directories account for every sector but the one handed
/// out.
pub proof fn lemma_accounted_allocated(
    before: Image,
    after: Image,
    ht: Seq<([u8; 26], u64)>,
    values: Map<u64, u64>,
    delmap: Map<u64, u64>,
    ret: u64,
)
    requires
        before.accounted(ht, values, delmap),
        agree_except(before, after, allocation_touches(ret)),
        is_sector_base(ret),
        after.file_size() == before.file_size() || (ret == before.file_size()
            && after.file_size() == ret + SECTOR_SIZE),
    ensures
        after.accounted_but(ht, values, delmap, ret),
{
    reveal(Image::accounted_but);
    assert forall|base: u64|
        #![trigger after.has_sector(base)]
        after.has_sector(base) && base != ret implies after.sector_accounted(
        ht,
        values,
        delmap,
        base,
    ) by {
        lemma_sectors_apart(base, ret);
        assert(before.has_sector(base));
        assert(before.sector_accounted(ht, values, delmap, base));
        assert(after.read((base + 48) as u64, 8) == before.read((base + 48) as u64, 8));
        assert(after.read(base, 8) == before.read(base, 8));
    }
}

/// Entering the sector that was handed out into the directory of the value log
/// accounts for it.
pub proof fn lemma_accounted_values(
    image: Image,
    ht: Seq<([u8; 26], u64)>,
    values: Map<u64, u64>,
    delmap: Map<u64, u64>,
    ret: u64,
    key: u64,
)
    requires
        image.accounted_but(ht, values, delmap, ret),
        image.kind(ret) == PAGE_TYPE_VALUES,
        image.num(ret) == key,
        !values.contains_key(key),
        ret + VALUE_SIZE <= u64::MAX,
    ensures
        image.accounted(ht, values.insert(key, (ret + VALUE_SIZE) as u64), delmap),
{
    reveal(Image::accounted_but);
    let more = values.insert(key, (ret + VALUE_SIZE) as u64);
    assert forall|base: u64|
        #![trigger image.has_sector(base)]
        image.has_sector(base) && base != 0 implies image.sector_accounted(
        ht,
        more,
        delmap,
        base,
    ) by {
        if base != ret {
            assert(image.sector_accounted(ht, values, delmap, base));
        }
    }
}

/// Entering the sector that was handed out into the directory of the bitmap accounts
/// for it.
pub proof fn lemma_accounted_delmap(
    image: Image,
    ht: Seq<([u8; 26], u64)>,
    values: Map<u64, u64>,
    delmap: Map<u64, u64>,
    ret: u64,
    key: u64,
)
    requires
        image.accounted_but(ht, values, delmap, ret),
        image.kind(ret) == PAGE_TYPE_DELMAP,
        image.num(ret) == key,
        !delmap.contains_key(key),
        ret + FIRST_SLOT_OFFSET <= u64::MAX,
    ensures
        image.accounted(ht, values, delmap.insert(key, (ret + FIRST_SLOT_OFFSET) as u64)),
{
    reveal(Image::accounted_but);
    let more = delmap.insert(key, (ret + FIRST_SLOT_OFFSET) as u64);
    assert forall|base: u64|
        #![trigger image.has_sector(base)]
        image.has_sector(base) && base != 0 implies image.sector_accounted(
        ht,
        values,
        more,
        base,
    ) by {
        if base != ret {
            assert(image.sector_accounted(ht, values, delmap, base));
        }
    }
}

/// Entering the sector that was handed out into the directory of the index, behind
/// its first sector, accounts for it.
pub proof fn lemma_accounted_index(
    image: Image,
    ht: Seq<([u8; 26], u64)>,
    values: Map<u64, u64>,
    delmap: Map<u64, u64>,
    ret: u64,
    at: int,
    key: [u8; 26],
)
    requires
        image.accounted_but(ht, values, delmap, ret),
        image.kind(ret) == PAGE_TYPE_HT,
        1 <= at <= ht.len(),
    ensures
        image.accounted(ht.insert(at, (key, ret)), values, delmap),
{
    reveal(Image::accounted_but);
    let more = ht.insert(at, (key, ret));
    assert(more[0] == ht[0]);
    assert(more[at] == (key, ret));
    assert forall|base: u64|
        #![trigger image.has_sector(base)]
        image.has_sector(base) && base != 0 implies image.sector_accounted(
        more,
        values,
        delmap,
        base,
    ) by {
        if base != ret {
            assert(image.sector_accounted(ht, values, delmap, base));
            if image.kind(base) == PAGE_TYPE_HT {
                let i = choose|i: int| 0 <= i < ht.len() && (#[trigger] ht[i]).1 == base;
                if i < at {
                    assert(more[i] == ht[i]);
                } else {
                    assert(more[i + 1] == ht[i]);
                }
            }
        } else {
            assert(listed(more, ret));
        }
    }
}

/// Freeing a sector of the value log or of the bitmap, and dropping its key from
/// the directory, leaves the sectors accounted for.
pub proof fn lemma_accounted_freed(
    before: Image,
    after: Image,
    ht: Seq<([u8; 26], u64)>,
    values: Map<u64, u64>,
    delmap: Map<u64, u64>,
    base: u64,
    in_values: bool,
)
    requires
        before.accounted(ht, values, delmap),
        before.has_sector(base),
        in_values ==> before.kind(base) == PAGE_TYPE_VALUES,
        !in_values ==> before.kind(base) == PAGE_TYPE_DELMAP,
        agree_except(before, after, set![(base + 48) as u64, (base + 56) as u64, 8u64]),
        after.file_size() == before.file_size(),
        after.kind(base) == PAGE_TYPE_FREE,
    ensures
        after.accounted(
            ht,
            if in_values {
                values.remove(before.num(base))
            } else {
                values
            },
            if in_values {
                delmap
            } else {
                delmap.remove(before.num(base))
            },
        ),
{
    reveal(Image::accounted_but);
    let fewer_values = if in_values {
        values.remove(before.num(base))
    } else {
        values
    };
    let fewer_delmap = if in_values {
        delmap
    } else {
        delmap.remove(before.num(base))
    };
    let touched = set![(base + 48) as u64, (base + 56) as u64, 8u64];
    assert(before.sector_accounted(ht, values, delmap, base));
    assert forall|other: u64|
        #![trigger after.has_sector(other)]
        after.has_sector(other) && other != 0 implies after.sector_accounted(
        ht,
        fewer_values,
        fewer_delmap,
        other,
    ) by {
        assert(before.has_sector(other));
        if other != base {
            lemma_sectors_apart(other, base);
            assert(before.sector_accounted(ht, values, delmap, other));
            assert(!touched.contains((other + 48) as u64));
            assert(!touched.contains(other));
            assert(after.read((other + 48) as u64, 8) == before.read((other + 48) as u64, 8));
            assert(after.read(other, 8) == before.read(other, 8));
        }
    }
}

} // verus!
