use vstd::prelude::*;
use crate::frame::agree_except;
use crate::image::Image;
use crate::layout::HASH_LEN;
use crate::layout::PAGE_TYPE_DELMAP;
use crate::layout::PAGE_TYPE_HT;
use crate::layout::PAGE_TYPE_VALUES;
use crate::layout::SECTOR_TYPE_OFFSET;

verus! {

impl Image {
    /// The key that the sector at `base` records: a hash for a sector of the index,
    /// a logical offset for a sector of the value log or of the bitmap, nothing for
    /// a free sector.
    pub open spec fn sector_key(self, base: u64) -> Seq<u8> {
        if self.kind(base) == PAGE_TYPE_HT {
            self.read(base, HASH_LEN as nat)
        } else if self.kind(base) == PAGE_TYPE_VALUES || self.kind(base) == PAGE_TYPE_DELMAP {
            self.read(base, 8)
        } else {
            Seq::<u8>::empty()
        }
    }
}

/// The sectors of the file: how far the file reaches, and for each sector its type
/// and its key.
#[verifier::opaque]
pub open spec fn sectors_of(image: Image) -> (u64, Map<u64, (u64, Seq<u8>)>) {
    (
        image.file_size(),
        Map::new(
            |base: u64| image.has_sector(base),
            |base: u64| (image.kind(base), image.sector_key(base)),
        ),
    )
}

/// Whether the file has in `after` the sectors it has in `before`, of the same types
/// and with the same keys.
pub open spec fn sectors_kept(before: Image, after: Image) -> bool {
    sectors_of(after) == sectors_of(before)
}

/// The sectors are kept by changes that spare their keys and types and leave the
/// size of the file as it is.
pub proof fn lemma_sectors_kept(before: Image, after: Image, touched: Set<u64>)
    requires
        agree_except(before, after, touched),
        after.file_size() == before.file_size(),
        forall|base: u64|
            #![trigger before.has_sector(base)]
            before.has_sector(base) ==> !touched.contains(base) && !touched.contains(
                (base + SECTOR_TYPE_OFFSET) as u64,
            ),
    ensures
        sectors_kept(before, after),
{
    reveal(sectors_of);
    let a = sectors_of(after).1;
    let b = sectors_of(before).1;
    assert forall|base: u64| #[trigger] a.contains_key(base) implies a[base] == b[base] by {
        assert(before.has_sector(base));
        assert(after.read((base + SECTOR_TYPE_OFFSET) as u64, 8) == before.read(
            (base + SECTOR_TYPE_OFFSET) as u64,
            8,
        ));
        assert(after.read(base, 8) == before.read(base, 8));
        assert(after.read(base, HASH_LEN as nat) == before.read(base, HASH_LEN as nat));
    }
    assert(a =~= b);
}

/// Where the sectors are kept, the file is as long as it was, and each sector has the
/// type and the key it had.
pub proof fn lemma_kept_sector(before: Image, after: Image, base: u64)
    requires
        sectors_kept(before, after),
    ensures
        after.file_size() == before.file_size(),
        after.has_sector(base) == before.has_sector(base),
        before.has_sector(base) ==> after.kind(base) == before.kind(base) && after.sector_key(base)
            == before.sector_key(base),
{
    reveal(sectors_of);
    if before.has_sector(base) {
        assert(sectors_of(before).1.contains_key(base));
        assert(sectors_of(after).1[base] == sectors_of(before).1[base]);
    }
}

} // verus!
