use vstd::prelude::*;
use crate::image::Image;
use crate::indexshape::lemma_occupied_frame;
use crate::indexshape::slot_offset;
use crate::layout::FIRST_SECTOR_OFFSET;
use crate::layout::FIRST_SLOT_OFFSET;
use crate::layout::PAGE_TYPE_FREE;
use crate::layout::PAGE_TYPE_VALUES;
use crate::layout::sector_base;
use crate::layout::SECTOR_SIZE;
use crate::layout::SLOTS_IN_SECTOR;
use crate::layout::VALUE_SIZE;
use crate::shape::header_cell;
use crate::shape::lemma_in_sector;
use crate::shape::lemma_sector_base_is_base;
use crate::shape::lemma_sector_cell_in_page;
use crate::shape::sector_cell;
use crate::shape::values_cell;
use crate::transaction::covers;
use crate::transaction::lemma_top_cover_exists;
use crate::transaction::overlay;
use crate::transaction::top_cover;
use crate::upkeep::steady;

verus! {

/// The image after the pending writes were applied to the file.
pub open spec fn flushed(image: Image) -> Image {
    Image { changes: Map::<u64, Seq<u8>>::empty(), disk: overlay(image.disk, image.changes) }
}

impl Image {
    /// Whether the engine may read `len` bytes at `offset`: a header field, a field
    /// or an entry of a sector of the index, of the value log or of the bitmap, or
    /// the type or the free-list pointer of a free sector.
    pub open spec fn stable_cell(self, offset: u64, len: nat) -> bool {
        if offset < FIRST_SECTOR_OFFSET {
            header_cell(offset, len)
        } else {
            let base = sector_base(offset);
            let rel = offset - base;
            &&& base + SECTOR_SIZE <= self.file_size()
            &&& if self.kind(base) == PAGE_TYPE_FREE {
                (rel == 48 || rel == 56) && len == 8
            } else {
                sector_cell(self.kind(base), rel, len)
            }
        }
    }
}

/// Two fields or entries of a sector that share a byte are one.
pub proof fn lemma_cells_apart(kind: u64, r1: int, l1: nat, r2: int, l2: nat, at: int)
    requires
        sector_cell(kind, r1, l1),
        if kind == PAGE_TYPE_FREE {
            (r2 == 48 || r2 == 56) && l2 == 8
        } else {
            sector_cell(kind, r2, l2)
        },
        r1 <= at < r1 + l1,
        r2 <= at < r2 + l2,
    ensures
        r1 == r2,
        l1 == l2,
{
}

/// Two header fields that share a byte are one.
pub proof fn lemma_header_cells_apart(o1: u64, l1: nat, o2: u64, l2: nat, at: int)
    requires
        header_cell(o1, l1),
        header_cell(o2, l2),
        o1 <= at < o1 + l1,
        o2 <= at < o2 + l2,
    ensures
        o1 == o2,
        l1 == l2,
{
}

/// A read that the engine may make returns after the flush what it returned before.
#[verifier::spinoff_prover]
#[verifier::rlimit(50)]
pub proof fn lemma_flushed_read(image: Image, offset: u64, len: nat)
    requires
        image.sized(),
        image.conforming(),
        image.stable_cell(offset, len),
    ensures
        flushed(image).read(offset, len) == image.read(offset, len),
        image.changes.contains_key(offset) ==> image.changes[offset].len() == len,
        offset + len <= image.disk.len(),
{
    let after = overlay(image.disk, image.changes);
    if offset >= FIRST_SECTOR_OFFSET {
        let base = sector_base(offset);
        lemma_sector_base_is_base(offset);
        if image.kind(base) == PAGE_TYPE_FREE {
            assert(values_cell(offset - base, len));
        }
        lemma_sector_cell_in_page(
            if image.kind(base) == PAGE_TYPE_FREE {
                PAGE_TYPE_VALUES
            } else {
                image.kind(base)
            },
            base,
            offset - base,
            len,
        );
    }
    assert forall|p: int, k: u64| offset <= p < offset + len && covers(image.changes, k, p) implies k
        == offset && image.changes[k].len() == len by {
        let klen = image.changes[k].len();
        assert(image.cell_ok(k, klen));
        if offset < FIRST_SECTOR_OFFSET {
            if k >= FIRST_SECTOR_OFFSET {
                lemma_sector_base_is_base(k);
            } else {
                lemma_header_cells_apart(k, klen, offset, len, p);
            }
        } else {
            let base = sector_base(offset);
            if k < FIRST_SECTOR_OFFSET {
            } else {
                let own = sector_base(k);
                lemma_sector_base_is_base(k);
                lemma_sector_cell_in_page(image.kind(own), own, k - own, klen);
                if own != base {
                    crate::sectors::lemma_sectors_apart(own, base);
                }
                lemma_cells_apart(image.kind(base), k - base, klen, offset - base, len, p - base);
            }
        }
    }
    if image.changes.contains_key(offset) {
        if len > 0 {
            assert(covers(image.changes, offset, offset as int) || image.changes[offset].len()
                == 0);
            if image.changes[offset].len() == 0 {
                assert(image.cell_ok(offset, 0));
            }
        } else {
            assert(image.cell_ok(offset, image.changes[offset].len()));
        }
    }
    assert forall|i: int| 0 <= i < len implies after.subrange(offset as int, offset + len)[i]
        == image.read(offset, len)[i] by {
        let p = offset + i;
        if exists|k: u64| covers(image.changes, k, p) {
            let k = choose|k: u64| covers(image.changes, k, p);
            lemma_top_cover_exists(image.changes, k, p);
            let t = top_cover(image.changes, p);
            assert(covers(image.changes, t, p));
            assert(t == offset);
        } else {
            if image.changes.contains_key(offset) {
                assert(covers(image.changes, offset, p));
            }
        }
    }
    assert(after.subrange(offset as int, offset + len) =~= image.read(offset, len));
}

/// The type of a sector reads after the flush as before.
pub proof fn lemma_flushed_kind(image: Image, base: u64)
    requires
        image.sized(),
        image.conforming(),
        image.has_sector(base),
        image.kind(base) <= 3,
    ensures
        flushed(image).kind(base) == image.kind(base),
{
    let at = (base + 48) as u64;
    lemma_in_sector(base, at);
    lemma_flushed_read(image, at, 8);
}

/// Flushing leaves the sectors of the file, their types and their keys as they are,
/// where the directories account for the sectors.
#[verifier::spinoff_prover]
pub proof fn lemma_flushed_sectors(
    image: Image,
    chain: Seq<u64>,
    ht: Seq<([u8; 26], u64)>,
    values: Map<u64, u64>,
    delmap: Map<u64, u64>,
)
    requires
        steady(image, chain, ht, values, delmap),
        image.accounted(ht, values, delmap),
    ensures
        crate::sectorview::sectors_kept(image, flushed(image)),
{
    reveal(crate::upkeep::steady);
    reveal(crate::sectorview::sectors_of);
    reveal(Image::accounted_but);
    let after = flushed(image);
    lemma_flushed_read(image, 0, 8);
    let a = crate::sectorview::sectors_of(after).1;
    let b = crate::sectorview::sectors_of(image).1;
    assert forall|base: u64| #[trigger] a.contains_key(base) implies a[base] == b[base] by {
        assert(image.has_sector(base));
        assert(image.sector_accounted(ht, values, delmap, base));
        lemma_flushed_kind(image, base);
        lemma_in_sector(base, base);
        if image.kind(base) == 1 {
            lemma_flushed_read(image, base, 26);
        } else if image.kind(base) == 2 || image.kind(base) == 3 {
            lemma_flushed_read(image, base, 8);
        }
    }
    assert(a =~= b);
}

/// Flushing leaves the index as it is.
#[verifier::spinoff_prover]
pub proof fn lemma_flushed_index(
    image: Image,
    chain: Seq<u64>,
    ht: Seq<([u8; 26], u64)>,
    values: Map<u64, u64>,
    delmap: Map<u64, u64>,
)
    requires
        steady(image, chain, ht, values, delmap),
    ensures
        crate::indexshape::index_kept(image, flushed(image), ht),
{
    reveal(crate::upkeep::steady);
    let after = flushed(image);
    assert forall|i: int, j: int| 0 <= i < ht.len() && 0 <= j < SLOTS_IN_SECTOR implies #[trigger] after.slot(
        (#[trigger] ht[i]).1,
        j,
    ) == image.slot(ht[i].1, j) by {
        let base = ht[i].1;
        assert(image.index_sector_ok(ht[i].0@, base));
        let at = slot_offset(base, j) as u64;
        lemma_in_sector(base, at);
        assert((at - base) % 32 == 0);
        lemma_flushed_read(image, at, 32);
    }
    crate::indexshape::lemma_same_index_kept(image, after, ht);
}

/// Flushing leaves the slots of the log and the entries of its bitmap as they read.
#[verifier::spinoff_prover]
pub proof fn lemma_flushed_log(
    image: Image,
    chain: Seq<u64>,
    ht: Seq<([u8; 26], u64)>,
    values: Map<u64, u64>,
    delmap: Map<u64, u64>,
)
    requires
        steady(image, chain, ht, values, delmap),
    ensures
        crate::logview::log_kept(image, flushed(image), values, delmap),
{
    reveal(crate::upkeep::steady);
    reveal(crate::logview::log_of);
    let after = flushed(image);
    let a = crate::logview::log_of(after, values, delmap);
    let b = crate::logview::log_of(image, values, delmap);
    assert forall|k: (u64, int)| #[trigger] a.0.contains_key(k) implies a.0[k] == b.0[k] by {
        assert(image.value_sector_ok(k.0, values[k.0]));
        let base = (values[k.0] - VALUE_SIZE) as u64;
        let at = (values[k.0] + 128 * k.1) as u64;
        lemma_in_sector(base, at);
        assert((at - base) % 128 == 0);
        lemma_flushed_read(image, at, 128);
    }
    assert(a.0 =~= b.0);
    assert forall|k: (u64, int)| #[trigger] a.1.contains_key(k) implies a.1[k] == b.1[k] by {
        assert(image.delmap_sector_ok(k.0, delmap[k.0]));
        let base = (delmap[k.0] - 64) as u64;
        let at = (delmap[k.0] + 32 * k.1) as u64;
        lemma_in_sector(base, at);
        assert((at - base) % 32 == 0);
        lemma_flushed_read(image, at, 32);
    }
    assert(a.1 =~= b.1);
}

/// Flushing leaves the engine steady, and the header of the log as it reads.
#[verifier::spinoff_prover]
#[verifier::rlimit(50)]
pub proof fn lemma_flushed_steady(
    image: Image,
    chain: Seq<u64>,
    ht: Seq<([u8; 26], u64)>,
    values: Map<u64, u64>,
    delmap: Map<u64, u64>,
)
    requires
        steady(image, chain, ht, values, delmap),
    ensures
        steady(flushed(image), chain, ht, values, delmap),
        flushed(image).num(16) == image.num(16),
        flushed(image).num(24) == image.num(24),
        flushed(image).num(32) == image.num(32),
        flushed(image).num(48) == image.num(48),
        flushed(image).file_size() == image.file_size(),
{
    reveal(crate::upkeep::steady);
    let after = flushed(image);
    lemma_flushed_read(image, 0, 8);
    lemma_flushed_read(image, 8, 8);
    lemma_flushed_read(image, 16, 8);
    lemma_flushed_read(image, 24, 8);
    lemma_flushed_read(image, 32, 8);
    lemma_flushed_read(image, 48, 8);
    assert forall|i: int| 0 <= i < chain.len() implies {
        &&& after.has_sector(#[trigger] chain[i])
        &&& after.next_free(chain[i]) == image.next_free(chain[i])
        &&& after.kind(chain[i]) == 0
    } by {
        let base = chain[i];
        assert(image.has_sector(base));
        assert(image.kind(base) == 0);
        lemma_flushed_kind(image, base);
        lemma_in_sector(base, (base + 56) as u64);
        lemma_flushed_read(image, (base + 56) as u64, 8);
    }
    assert forall|i: int| 0 <= i < ht.len() implies after.index_sector_ok(
        #[trigger] ht[i].0@,
        ht[i].1,
    ) by {
        let base = ht[i].1;
        assert(image.index_sector_ok(ht[i].0@, base));
        lemma_flushed_kind(image, base);
        lemma_in_sector(base, base);
        lemma_flushed_read(image, base, 26);
        lemma_in_sector(base, (base + 32) as u64);
        lemma_flushed_read(image, (base + 32) as u64, 8);
        assert forall|j: int| 0 <= j < SLOTS_IN_SECTOR implies #[trigger] after.slot(base, j)
            == image.slot(base, j) by {
            let at = slot_offset(base, j) as u64;
            lemma_in_sector(base, at);
            assert((at - base) % 32 == 0);
            lemma_flushed_read(image, at, 32);
        }
        lemma_occupied_frame(image, after, base, SLOTS_IN_SECTOR as int);
    }
    assert forall|key: u64| #[trigger] values.contains_key(key) implies after.value_sector_ok(
        key,
        values[key],
    ) by {
        assert(image.value_sector_ok(key, values[key]));
        let base = (values[key] - VALUE_SIZE) as u64;
        lemma_flushed_kind(image, base);
        lemma_in_sector(base, base);
        lemma_flushed_read(image, base, 8);
    }
    assert forall|key: u64| #[trigger] delmap.contains_key(key) implies after.delmap_sector_ok(
        key,
        delmap[key],
    ) by {
        assert(image.delmap_sector_ok(key, delmap[key]));
        let base = (delmap[key] - FIRST_SLOT_OFFSET) as u64;
        lemma_flushed_kind(image, base);
        lemma_in_sector(base, base);
        lemma_flushed_read(image, base, 8);
    }
}

} // verus!
