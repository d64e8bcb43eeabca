use vstd::prelude::*;
use crate::codec::entry_hash_of;
use crate::codec::entry_value_of;
use crate::codec::home_slot;
use crate::codec::zeros;
use crate::frame::agree_except;
use crate::image::Image;
use crate::layout::FIRST_SLOT_OFFSET;
use crate::layout::HASH_LEN;
use crate::layout::NO_VALUE;
use crate::layout::PAGE_TYPE_FREE;
use crate::layout::PAGE_TYPE_HT;
use crate::layout::SECTOR_OCCUPANCY_OFFSET;
use crate::layout::SECTOR_SIZE;
use crate::layout::SECTOR_TYPE_OFFSET;
use crate::layout::SLOT_SIZE;
use crate::layout::SLOTS_IN_SECTOR;

verus! {

/// Occupancy at which a sector of the index is split in any case.
pub const SPLIT_OCCUPANCY: u64 = 29489;

/// Whether `a` and `b` agree before position `i` and `a` is smaller there.
pub open spec fn first_gap(a: Seq<u8>, b: Seq<u8>, i: int) -> bool {
    &&& 0 <= i < a.len()
    &&& i < b.len()
    &&& a[i] < b[i]
    &&& a.subrange(0, i) == b.subrange(0, i)
}

/// Whether hash `a` comes before hash `b`, byte by byte.
pub open spec fn hash_lt(a: Seq<u8>, b: Seq<u8>) -> bool {
    exists|i: int| first_gap(a, b, i)
}

/// File offset of entry `slot` of the index sector at `base`.
pub open spec fn slot_offset(base: u64, slot: int) -> int {
    base + FIRST_SLOT_OFFSET + SLOT_SIZE * slot
}

/// The directory lists its sectors in ascending order of key, each key once.
pub open spec fn ascending(ht: Seq<([u8; 26], u64)>) -> bool {
    forall|i: int| 0 <= i && i + 1 < ht.len() ==> hash_lt(#[trigger] ht[i].0@, ht[i + 1].0@)
}

/// Whether sector `i` of the directory is the one that owns `hash`: its key is not
/// above the hash, and the key of the next sector is.
pub open spec fn owns(ht: Seq<([u8; 26], u64)>, i: int, hash: Seq<u8>) -> bool {
    &&& 0 <= i < ht.len()
    &&& !hash_lt(hash, ht[i].0@)
    &&& i + 1 < ht.len() ==> hash_lt(hash, ht[i + 1].0@)
}

/// The slot that the search reaches after `k` steps from its start at `home`.
pub open spec fn probe_slot(home: u64, k: int) -> int {
    (home + k) % (SLOTS_IN_SECTOR as int)
}

impl Image {
    /// Whether the search for `hash` passes over entry `slot` of the index sector at
    /// `base`: the entry is in use, for another hash.
    pub open spec fn passes(self, base: u64, hash: Seq<u8>, slot: int) -> bool {
        self.slot_value(base, slot) != NO_VALUE && self.slot_hash(base, slot) != hash
    }

    /// Whether the search for `hash` from `home` ends after `k` steps: it passes over
    /// the slots before, and the slot it has reached is empty or holds the hash.
    pub open spec fn stops(self, base: u64, hash: Seq<u8>, home: u64, k: int) -> bool {
        &&& 0 <= k < SLOTS_IN_SECTOR
        &&& !self.passes(base, hash, probe_slot(home, k))
        &&& forall|j: int| 0 <= j < k ==> self.passes(base, hash, #[trigger] probe_slot(home, j))
    }

    /// Number of steps after which the search for `hash` from `home` ends; 0 where
    /// it finds all entries of the sector in use for other hashes.
    pub open spec fn probe_steps(self, base: u64, hash: Seq<u8>, home: u64) -> int {
        if exists|k: int| self.stops(base, hash, home, k) {
            choose|k: int| self.stops(base, hash, home, k)
        } else {
            0
        }
    }

    /// The slot at which the search for `hash` ends in the index sector at `base`: the
    /// first from its start that is empty or holds the hash, and the start itself
    /// where there is none.
    pub open spec fn found_slot(self, base: u64, hash: Seq<u8>) -> int {
        probe_slot(home_slot(hash), self.probe_steps(base, hash, home_slot(hash)))
    }

    /// Entry `slot` of the index sector at `base`.
    pub open spec fn slot(self, base: u64, slot: int) -> Seq<u8> {
        self.read(slot_offset(base, slot) as u64, SLOT_SIZE as nat)
    }

    /// The value in entry `slot` of the index sector at `base`, 0 for an empty one.
    pub open spec fn slot_value(self, base: u64, slot: int) -> u64 {
        entry_value_of(self.slot(base, slot))
    }

    /// The hash in entry `slot` of the index sector at `base`.
    pub open spec fn slot_hash(self, base: u64, slot: int) -> Seq<u8> {
        entry_hash_of(self.slot(base, slot))
    }

    /// Number of entries in use among the first `n` of the index sector at `base`.
    pub open spec fn occupied(self, base: u64, n: int) -> int
        decreases n,
    {
        if n <= 0 {
            0
        } else {
            self.occupied(base, n - 1) + if self.slot_value(base, n - 1) != NO_VALUE {
                1int
            } else {
                0int
            }
        }
    }

    /// The occupancy that the index sector at `base` records.
    pub open spec fn occupancy(self, base: u64) -> u64 {
        self.num((base + SECTOR_OCCUPANCY_OFFSET) as u64)
    }

    /// The sector at `base` is a sector of the index with the given key: it records
    /// its key and the number of its entries in use.
    pub open spec fn index_sector_ok(self, key: Seq<u8>, base: u64) -> bool {
        &&& self.has_sector(base)
        &&& self.kind(base) == PAGE_TYPE_HT
        &&& self.read(base, HASH_LEN as nat) == key
        &&& self.occupancy(base) == self.occupied(base, SLOTS_IN_SECTOR as int)
    }

    /// The directory of the index starts with the sector keyed by the zero hash,
    /// lists its sectors in ascending order of key, and each of them is sound.
    pub open spec fn index_ok(self, ht: Seq<([u8; 26], u64)>) -> bool {
        &&& ht.len() > 0
        &&& ht[0].0@ == zeros(HASH_LEN as nat)
        &&& ascending(ht)
        &&& forall|i: int| 0 <= i < ht.len() ==> self.index_sector_ok(#[trigger] ht[i].0@, ht[i].1)
    }

    /// Every sector on the free list is marked free.
    pub open spec fn free_kinds_ok(self, chain: Seq<u64>) -> bool {
        forall|i: int| 0 <= i < chain.len() ==> self.kind(#[trigger] chain[i]) == PAGE_TYPE_FREE
    }
}

/// Whether the sectors of the directory hold the same entries in both images.
pub open spec fn same_index(before: Image, after: Image, ht: Seq<([u8; 26], u64)>) -> bool {
    forall|i: int, j: int|
        0 <= i < ht.len() && 0 <= j < SLOTS_IN_SECTOR ==> #[trigger] after.slot(
            (#[trigger] ht[i]).1,
            j,
        ) == before.slot(ht[i].1, j)
}

/// The entries of the index: for each sector of the directory, its entries.
#[verifier::opaque]
pub open spec fn index_of(image: Image, ht: Seq<([u8; 26], u64)>) -> Seq<Seq<Seq<u8>>> {
    Seq::new(
        ht.len(),
        |i: int| Seq::new(SLOTS_IN_SECTOR as nat, |j: int| image.slot(ht[i].1, j)),
    )
}

/// Whether the index is in `after` what it is in `before`.
pub open spec fn index_kept(before: Image, after: Image, ht: Seq<([u8; 26], u64)>) -> bool {
    index_of(after, ht) == index_of(before, ht)
}

/// Two images whose directory sectors hold the same entries have the same index.
pub proof fn lemma_same_index_kept(before: Image, after: Image, ht: Seq<([u8; 26], u64)>)
    requires
        same_index(before, after, ht),
    ensures
        index_kept(before, after, ht),
{
    reveal(index_of);
    assert forall|i: int| 0 <= i < ht.len() implies #[trigger] index_of(after, ht)[i] == index_of(
        before,
        ht,
    )[i] by {
        assert forall|j: int| 0 <= j < SLOTS_IN_SECTOR implies #[trigger] index_of(after, ht)[i][j]
            == index_of(before, ht)[i][j] by {
            assert(after.slot(ht[i].1, j) == before.slot(ht[i].1, j));
        }
        assert(index_of(after, ht)[i] =~= index_of(before, ht)[i]);
    }
    assert(index_of(after, ht) =~= index_of(before, ht));
}

/// Two images with the same index hold the same entries in the sectors of the
/// directory.
pub proof fn lemma_kept_same_index(before: Image, after: Image, ht: Seq<([u8; 26], u64)>)
    requires
        index_kept(before, after, ht),
    ensures
        same_index(before, after, ht),
{
    reveal(index_of);
    assert forall|i: int, j: int| 0 <= i < ht.len() && 0 <= j < SLOTS_IN_SECTOR implies #[trigger] after.slot(
        (#[trigger] ht[i]).1,
        j,
    ) == before.slot(ht[i].1, j) by {
        assert(index_of(after, ht)[i][j] == index_of(before, ht)[i][j]);
    }
}

/// Whether none of the offsets in `touched` lies in a sector of the directory.
pub open spec fn spares_index(touched: Set<u64>, ht: Seq<([u8; 26], u64)>) -> bool {
    forall|i: int, offset: u64|
        0 <= i < ht.len() && (#[trigger] ht[i]).1 <= offset < ht[i].1 + SECTOR_SIZE
            ==> !#[trigger] touched.contains(offset)
}

/// Whether none of the offsets in `touched` is the type of a sector on the free list.
pub open spec fn spares_free(touched: Set<u64>, chain: Seq<u64>) -> bool {
    forall|i: int|
        0 <= i < chain.len() ==> !touched.contains((#[trigger] chain[i] + SECTOR_TYPE_OFFSET) as u64)
}

/// The count of entries in use depends on the entries alone.
pub proof fn lemma_occupied_frame(before: Image, after: Image, base: u64, n: int)
    requires
        forall|j: int| 0 <= j < n ==> #[trigger] after.slot(base, j) == before.slot(base, j),
    ensures
        after.occupied(base, n) == before.occupied(base, n),
    decreases n,
{
    if n > 0 {
        lemma_occupied_frame(before, after, base, n - 1);
        assert(after.slot(base, n - 1) == before.slot(base, n - 1));
    }
}

/// The count of entries in use is at most the number of entries counted.
pub proof fn lemma_occupied_bounds(image: Image, base: u64, n: int)
    requires
        0 <= n,
    ensures
        0 <= image.occupied(base, n) <= n,
    decreases n,
{
    if n > 0 {
        lemma_occupied_bounds(image, base, n - 1);
    }
}

/// A sector with fewer entries in use than it has entries holds an empty one.
pub proof fn lemma_has_empty_slot(image: Image, base: u64, n: int) -> (j: int)
    requires
        0 <= n,
        image.occupied(base, n) < n,
    ensures
        0 <= j < n,
        image.slot_value(base, j) == NO_VALUE,
    decreases n,
{
    if image.slot_value(base, n - 1) == NO_VALUE {
        n - 1
    } else {
        lemma_has_empty_slot(image, base, n - 1)
    }
}

/// One entry changes the count of entries in use by what it adds or takes.
pub proof fn lemma_occupied_update(before: Image, after: Image, base: u64, n: int, slot: int)
    requires
        0 <= slot < n,
        forall|j: int| 0 <= j < n && j != slot ==> #[trigger] after.slot(base, j) == before.slot(
            base,
            j,
        ),
    ensures
        after.occupied(base, n) == before.occupied(base, n) + (if after.slot_value(base, slot)
            != NO_VALUE {
            1int
        } else {
            0int
        }) - (if before.slot_value(base, slot) != NO_VALUE {
            1int
        } else {
            0int
        }),
    decreases n,
{
    if slot == n - 1 {
        lemma_occupied_frame(before, after, base, n - 1);
    } else {
        lemma_occupied_update(before, after, base, n - 1, slot);
        assert(after.slot(base, n - 1) == before.slot(base, n - 1));
    }
}

/// A sector of the index survives changes that spare it.
pub proof fn lemma_index_sector_frame(
    before: Image,
    after: Image,
    touched: Set<u64>,
    key: Seq<u8>,
    base: u64,
)
    requires
        before.index_sector_ok(key, base),
        agree_except(before, after, touched),
        forall|offset: u64| base <= offset < base + SECTOR_SIZE ==> !touched.contains(offset),
    ensures
        after.index_sector_ok(key, base),
{
    assert(!touched.contains(base));
    assert(!touched.contains((base + SECTOR_TYPE_OFFSET) as u64));
    assert(!touched.contains((base + SECTOR_OCCUPANCY_OFFSET) as u64));
    assert(after.read(base, HASH_LEN as nat) == before.read(base, HASH_LEN as nat));
    assert(after.read((base + SECTOR_TYPE_OFFSET) as u64, 8) == before.read(
        (base + SECTOR_TYPE_OFFSET) as u64,
        8,
    ));
    assert(after.read((base + SECTOR_OCCUPANCY_OFFSET) as u64, 8) == before.read(
        (base + SECTOR_OCCUPANCY_OFFSET) as u64,
        8,
    ));
    assert forall|j: int| 0 <= j < SLOTS_IN_SECTOR implies #[trigger] after.slot(base, j)
        == before.slot(base, j) by {
        let at = slot_offset(base, j) as u64;
        assert(!touched.contains(at));
        assert(after.read(at, SLOT_SIZE as nat) == before.read(at, SLOT_SIZE as nat));
    }
    lemma_occupied_frame(before, after, base, SLOTS_IN_SECTOR as int);
}

/// The index survives changes that spare its sectors.
pub proof fn lemma_index_frame(
    before: Image,
    after: Image,
    touched: Set<u64>,
    ht: Seq<([u8; 26], u64)>,
)
    requires
        before.index_ok(ht),
        agree_except(before, after, touched),
        spares_index(touched, ht),
    ensures
        after.index_ok(ht),
        same_index(before, after, ht),
        index_kept(before, after, ht),
{
    assert forall|i: int, j: int| 0 <= i < ht.len() && 0 <= j < SLOTS_IN_SECTOR implies #[trigger] after.slot(
        (#[trigger] ht[i]).1,
        j,
    ) == before.slot(ht[i].1, j) by {
        assert(before.index_sector_ok(ht[i].0@, ht[i].1));
        let at = slot_offset(ht[i].1, j) as u64;
        assert(!touched.contains(at));
        assert(after.read(at, SLOT_SIZE as nat) == before.read(at, SLOT_SIZE as nat));
    }
    assert forall|i: int| 0 <= i < ht.len() implies after.index_sector_ok(
        #[trigger] ht[i].0@,
        ht[i].1,
    ) by {
        let base = ht[i].1;
        assert(before.index_sector_ok(ht[i].0@, base));
        assert(!touched.contains(base));
        assert(!touched.contains((base + SECTOR_TYPE_OFFSET) as u64));
        assert(!touched.contains((base + SECTOR_OCCUPANCY_OFFSET) as u64));
        assert(after.read(base, HASH_LEN as nat) == before.read(base, HASH_LEN as nat));
        assert(after.read((base + SECTOR_TYPE_OFFSET) as u64, 8) == before.read(
            (base + SECTOR_TYPE_OFFSET) as u64,
            8,
        ));
        assert(after.read((base + SECTOR_OCCUPANCY_OFFSET) as u64, 8) == before.read(
            (base + SECTOR_OCCUPANCY_OFFSET) as u64,
            8,
        ));
        assert forall|j: int| 0 <= j < SLOTS_IN_SECTOR implies #[trigger] after.slot(base, j)
            == before.slot(base, j) by {
            let at = slot_offset(base, j) as u64;
            assert(!touched.contains(at));
            assert(after.read(at, SLOT_SIZE as nat) == before.read(at, SLOT_SIZE as nat));
        }
        lemma_occupied_frame(before, after, base, SLOTS_IN_SECTOR as int);
    }
    lemma_same_index_kept(before, after, ht);
}

/// The marks of the free sectors survive changes that spare them.
pub proof fn lemma_free_kinds_frame(before: Image, after: Image, touched: Set<u64>, chain: Seq<u64>)
    requires
        before.free_kinds_ok(chain),
        forall|i: int| 0 <= i < chain.len() ==> before.has_sector(#[trigger] chain[i]),
        agree_except(before, after, touched),
        spares_free(touched, chain),
    ensures
        after.free_kinds_ok(chain),
{
    assert forall|i: int| 0 <= i < chain.len() implies after.kind(#[trigger] chain[i])
        == PAGE_TYPE_FREE by {
        let at = (chain[i] + SECTOR_TYPE_OFFSET) as u64;
        assert(before.has_sector(chain[i]));
        assert(after.read(at, 8) == before.read(at, 8));
    }
}

/// The search ends after one number of steps only.
pub proof fn lemma_stops_once(image: Image, base: u64, hash: Seq<u8>, home: u64, k: int)
    requires
        image.stops(base, hash, home, k),
    ensures
        image.probe_steps(base, hash, home) == k,
{
    let other = image.probe_steps(base, hash, home);
    assert(image.stops(base, hash, home, other));
    if other < k {
        assert(image.passes(base, hash, probe_slot(home, other)));
    }
    if k < other {
        assert(image.passes(base, hash, probe_slot(home, k)));
    }
}

/// Where the search passes over every slot of the sector, it settles for its start.
pub proof fn lemma_never_stops(image: Image, base: u64, hash: Seq<u8>, home: u64)
    requires
        forall|j: int|
            0 <= j < SLOTS_IN_SECTOR ==> image.passes(base, hash, #[trigger] probe_slot(home, j)),
    ensures
        image.probe_steps(base, hash, home) == 0,
{
    if exists|k: int| image.stops(base, hash, home, k) {
        let k = choose|k: int| image.stops(base, hash, home, k);
        assert(image.passes(base, hash, probe_slot(home, k)));
    }
}

/// The slot after a slot on the way of the search.
pub proof fn lemma_probe_next(home: u64, k: int)
    requires
        home < SLOTS_IN_SECTOR,
        0 <= k,
    ensures
        0 <= probe_slot(home, k) < SLOTS_IN_SECTOR,
        probe_slot(home, k + 1) == if probe_slot(home, k) + 1 >= SLOTS_IN_SECTOR {
            0
        } else {
            probe_slot(home, k) + 1
        },
        probe_slot(home, 0) == home,
{
    let n = SLOTS_IN_SECTOR as int;
    let q = (home + k) / n;
    let r = (home + k) % n;
    assert(home + k == n * q + r) by {
        vstd::arithmetic::div_mod::lemma_fundamental_div_mod(home + k, n);
    }
    if r + 1 >= n {
        assert(home + k + 1 == n * (q + 1) + 0);
        crate::cursor::lemma_div_mod_unique(home + k + 1, n, q + 1, 0);
    } else {
        assert(home + k + 1 == n * q + (r + 1));
        crate::cursor::lemma_div_mod_unique(home + k + 1, n, q, r + 1);
    }
    crate::cursor::lemma_div_mod_unique(home as int, n, 0, home as int);
}

/// A sector with an entry in use counts at least one.
pub proof fn lemma_occupied_positive(image: Image, base: u64, n: int, slot: int)
    requires
        0 <= slot < n,
        image.slot_value(base, slot) != NO_VALUE,
    ensures
        image.occupied(base, n) >= 1,
    decreases n,
{
    lemma_occupied_bounds(image, base, n - 1);
    if slot < n - 1 {
        lemma_occupied_positive(image, base, n - 1, slot);
    }
}

} // verus!
