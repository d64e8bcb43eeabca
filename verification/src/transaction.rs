use std::collections::BTreeMap;
use vstd::prelude::*;
use vstd::slice::slice_subrange;
use vstd::slice::slice_to_vec;
use crate::codec::decode_num;
use crate::codec::encode_num;
use crate::codec::num_bytes;
use crate::codec::num_of;
use crate::layout::page_base;
use crate::layout::PAGE_SIZE;
use crate::layout::page_start;
use crate::layout::SECTOR_SIZE;
use crate::layout::WAL_MAGIC;
use crate::layout::within_page;
use crate::wal::ascending_keys;
use crate::wal::lemma_ascending_keys;
use crate::wal::lemma_lists_keys_unique;
use crate::wal::lists_keys;
use crate::wal::read_records;
use crate::wal::record_bytes;
use crate::wal::records_bytes;
use crate::wal::replay;
use crate::wal::wal_image;

verus! {

/// The pending writes of a transaction: for each file offset, the bytes to put there.
pub type Changes = Map<u64, Seq<u8>>;

/// `disk` with `data` written over it from `offset` on.
pub open spec fn write_at(disk: Seq<u8>, offset: int, data: Seq<u8>) -> Seq<u8> {
    Seq::new(
        disk.len(),
        |p: int|
            if offset <= p < offset + data.len() {
                data[p - offset]
            } else {
                disk[p]
            },
    )
}

/// What a read of `len` bytes at `offset` returns: the pending write at exactly that
/// offset if there is one, the bytes of the file otherwise.
pub open spec fn read_at(changes: Changes, disk: Seq<u8>, offset: u64, len: nat) -> Seq<u8> {
    if changes.contains_key(offset) {
        changes[offset]
    } else {
        disk.subrange(offset as int, offset + len)
    }
}

/// Whether `len` bytes can be read at `offset`: a pending write at that offset has
/// the same length, and a read from the file stays within one page of it.
pub open spec fn readable(changes: Changes, disk: Seq<u8>, offset: u64, len: nat) -> bool {
    if changes.contains_key(offset) {
        changes[offset].len() == len
    } else {
        within_page(offset, len) && page_base(offset) + PAGE_SIZE <= disk.len()
    }
}

/// Whether every pending write lies within one page that the file holds.
pub open spec fn flushable(changes: Changes, disk: Seq<u8>) -> bool {
    forall|k: u64| #[trigger]
        changes.contains_key(k) ==> within_page(k, changes[k].len()) && page_base(k) + PAGE_SIZE
            <= disk.len()
}

/// Whether the pending write at `k` reaches the byte at position `p`.
pub open spec fn covers(changes: Changes, k: u64, p: int) -> bool {
    changes.contains_key(k) && k <= p < k + changes[k].len()
}

/// Whether `k` is the greatest offset of a pending write that reaches position `p`.
pub open spec fn is_top_cover(changes: Changes, k: u64, p: int) -> bool {
    covers(changes, k, p) && forall|j: u64| covers(changes, j, p) ==> j <= k
}

/// The greatest offset of a pending write that reaches position `p`.
pub open spec fn top_cover(changes: Changes, p: int) -> u64 {
    choose|k: u64| is_top_cover(changes, k, p)
}

/// The file after all pending writes have been applied in ascending order of offset:
/// each byte comes from the write with the greatest offset that reaches it, and from
/// the file as it was where no write does.
pub open spec fn overlay(disk: Seq<u8>, changes: Changes) -> Seq<u8> {
    Seq::new(
        disk.len(),
        |p: int|
            if exists|k: u64| covers(changes, k, p) {
                changes[top_cover(changes, p)][p - top_cover(changes, p)]
            } else {
                disk[p]
            },
    )
}

/// The pending writes of `changes` whose offsets lie below `bound`.
pub open spec fn below(changes: Changes, bound: int) -> Changes {
    changes.restrict(Set::new(|k: u64| k < bound))
}

/// Among the pending writes that reach a position there is one with the greatest
/// offset.
pub proof fn lemma_top_cover_exists(changes: Changes, k: u64, p: int)
    requires
        covers(changes, k, p),
    ensures
        is_top_cover(changes, top_cover(changes, p), p),
    decreases p - k,
{
    if !is_top_cover(changes, k, p) {
        let j = choose|j: u64| covers(changes, j, p) && !(j <= k);
        lemma_top_cover_exists(changes, j, p);
    }
}

/// Applying one more write, at an offset above all others, on top of the rest.
pub proof fn lemma_overlay_step(disk: Seq<u8>, lower: Changes, k: u64, data: Seq<u8>)
    requires
        forall|j: u64| lower.contains_key(j) ==> j < k,
        k + data.len() <= disk.len(),
    ensures
        overlay(disk, lower.insert(k, data)) == write_at(overlay(disk, lower), k as int, data),
{
    let upper = lower.insert(k, data);
    let left = overlay(disk, upper);
    let right = write_at(overlay(disk, lower), k as int, data);
    assert forall|p: int| 0 <= p < disk.len() implies left[p] == right[p] by {
        if k <= p < k + data.len() {
            assert(covers(upper, k, p));
            lemma_top_cover_exists(upper, k, p);
            let t = top_cover(upper, p);
            assert(covers(upper, t, p));
            assert(t == k);
        } else {
            assert forall|j: u64| covers(upper, j, p) <==> covers(lower, j, p) by {}
            if exists|j: u64| covers(lower, j, p) {
                let j = choose|j: u64| covers(lower, j, p);
                assert(covers(upper, j, p));
                lemma_top_cover_exists(lower, j, p);
                lemma_top_cover_exists(upper, j, p);
                let a = top_cover(lower, p);
                let b = top_cover(upper, p);
                assert(covers(upper, a, p));
                assert(covers(lower, b, p));
                assert(a == b);
            }
        }
    }
    assert(left =~= right);
}

/// Without pending writes the file stays as it is.
pub proof fn lemma_overlay_empty(disk: Seq<u8>)
    ensures
        overlay(disk, Map::<u64, Seq<u8>>::empty()) == disk,
{
    assert(overlay(disk, Map::<u64, Seq<u8>>::empty()) =~= disk);
}

/// One page of the file, held in memory.
pub struct FetchedPage {
    pub offset: u64,
    pub page: Vec<u8>,
    pub is_dirty: bool,
}

impl FetchedPage {
    /// The page starts on a page boundary, has the size of a page and lies within a
    /// file of `disk_len` bytes.
    pub open spec fn fits(&self, disk_len: nat) -> bool {
        &&& self.offset % PAGE_SIZE == 0
        &&& self.page@.len() == PAGE_SIZE
        &&& self.offset + PAGE_SIZE <= disk_len
    }
}

/// Whether a page slot is usable with a file of `disk_len` bytes.
pub open spec fn slot_fits(slot: Option<FetchedPage>, disk_len: nat) -> bool {
    slot is Some ==> slot->0.fits(disk_len)
}

/// Whether a page slot holds nothing that the file lacks.
pub open spec fn slot_clean(slot: Option<FetchedPage>, disk: Seq<u8>) -> bool {
    slot is Some ==> {
        &&& slot->0.fits(disk.len())
        &&& !slot->0.is_dirty
        &&& slot->0.page@ == disk.subrange(slot->0.offset as int, slot->0.offset + PAGE_SIZE)
    }
}

/// The file as it reads through a page slot: a dirty page stands for its bytes.
pub open spec fn through_slot(slot: Option<FetchedPage>, disk: Seq<u8>) -> Seq<u8> {
    if slot is Some && slot->0.is_dirty {
        write_at(disk, slot->0.offset as int, slot->0.page@)
    } else {
        disk
    }
}

/// Whether a page slot agrees with the file wherever it is not dirty.
pub open spec fn slot_consistent(slot: Option<FetchedPage>, disk: Seq<u8>) -> bool {
    slot is Some ==> {
        &&& slot->0.fits(disk.len())
        &&& !slot->0.is_dirty ==> slot->0.page@ == disk.subrange(
            slot->0.offset as int,
            slot->0.offset + PAGE_SIZE,
        )
    }
}

/// Writes `data` into `disk` from `offset` on.
pub fn write_bytes(disk: &mut Vec<u8>, offset: usize, data: &Vec<u8>)
    requires
        offset + data@.len() <= old(disk)@.len(),
    ensures
        final(disk)@ == write_at(old(disk)@, offset as int, data@),
{
    let n = data.len();
    let total = disk.len();
    let ghost before = disk@;
    let mut i: usize = 0;
    while i < n
        invariant
            n == data@.len(),
            before.len() == total,
            offset + n <= before.len(),
            disk@.len() == before.len(),
            0 <= i <= n,
            forall|p: int|
                0 <= p < before.len() ==> disk@[p] == if offset <= p < offset + i {
                    data@[p - offset]
                } else {
                    before[p]
                },
        decreases n - i,
    {
        disk[offset + i] = data[i];
        i += 1;
    }
    assert(disk@ =~= write_at(before, offset as int, data@));
}

/// Copies `len` bytes of `data`, from `offset` on, into a vector of their own.
pub fn copy_range(data: &Vec<u8>, offset: usize, len: usize) -> (out: Vec<u8>)
    requires
        offset + len <= data@.len(),
    ensures
        out@ == data@.subrange(offset as int, offset + len),
{
    let total = data.len();
    slice_to_vec(slice_subrange(data.as_slice(), offset, offset + len))
}

/// Whether `k` occurs among the first `n` items of `s`.
pub open spec fn in_prefix(s: Seq<u64>, n: int, k: u64) -> bool {
    exists|j: int| 0 <= j < n && j < s.len() && s[j] == k
}

/// The keys of `map` from `lo` to `hi`, both included, in ascending order.
///
/// Rests on `BTreeMap::range`, which walks the entries whose keys lie in the given
/// range in ascending order of key.
#[verifier::external_body]
fn keys_in(map: &BTreeMap<u64, Vec<u8>>, lo: u64, hi: u64) -> (keys: Vec<u64>)
    requires
        lo <= hi,
    ensures
        forall|i: int, j: int| 0 <= i < j < keys@.len() ==> keys@[i] < keys@[j],
        forall|k: u64| keys@.contains(k) <==> (map@.contains_key(k) && lo <= k <= hi),
{
    map.range(lo..=hi).map(|entry| *entry.0).collect()
}

/// The writes of the current transaction, not yet applied to the file, together with
/// a read-through cache of one page of the file.
///
/// A caller that reads or writes some number of bytes at an offset always reads and
/// writes that same number of bytes at that offset.
pub struct TableTransaction {
    changes: BTreeMap<u64, Vec<u8>>,
    page: Option<FetchedPage>,
}

impl TableTransaction {
    /// The pending writes.
    pub closed spec fn changes(&self) -> Changes {
        Map::new(|k: u64| self.changes@.contains_key(k), |k: u64| self.changes@[k]@)
    }

    /// The pending writes are finitely many, few enough to count, and each short
    /// enough for its length to be written down.
    pub proof fn lemma_changes_counted(&self)
        ensures
            self.changes().dom().finite(),
            self.changes().dom().len() <= u64::MAX,
            forall|k: u64|
                self.changes().contains_key(k) ==> (#[trigger] self.changes()[k]).len() <= u64::MAX,
    {
        broadcast use vstd::std_specs::btree::axiom_btree_map_view_finite_dom;
        broadcast use vstd::std_specs::btree::axiom_spec_btree_map_len;

        assert(self.changes().dom() =~= self.changes@.dom());
        assert(vstd::std_specs::btree::spec_btree_map_len(&self.changes) == self.changes@.len());
        assert forall|k: u64| self.changes().contains_key(k) implies (#[trigger] self.changes()[k]).len()
            <= u64::MAX by {
            assert(self.changes@[k].len() == self.changes@[k]@.len());
        }
    }

    /// The log written from a transaction reads back as that transaction: replaying
    /// it on a transaction without pending writes gives the pending writes of this
    /// one, and finds the log complete.
    pub proof fn lemma_log_reads_back(&self)
        ensures
            crate::wal::replay(
                crate::wal::wal_image(self.changes()),
                Map::<u64, Seq<u8>>::empty(),
            ) == (self.changes(), true),
    {
        self.lemma_changes_counted();
        crate::wal::lemma_wal_roundtrip(self.changes());
    }

    /// The cached page, if any.
    pub closed spec fn cached(&self) -> Option<FetchedPage> {
        self.page
    }

    /// The cached page, if any, is a clean copy of a page of `disk`.
    pub open spec fn coherent(&self, disk: Seq<u8>) -> bool {
        slot_clean(self.cached(), disk)
    }

    /// What a read of `len` bytes at `offset` returns.
    pub open spec fn reads(&self, disk: Seq<u8>, offset: u64, len: nat) -> Seq<u8> {
        read_at(self.changes(), disk, offset, len)
    }

    /// The number that a read of eight bytes at `offset` returns.
    pub open spec fn reads_num(&self, disk: Seq<u8>, offset: u64) -> u64 {
        num_of(self.reads(disk, offset, 8))
    }

    /// A transaction without pending writes.
    pub fn new() -> (tx: Self)
        ensures
            tx.changes() == Map::<u64, Seq<u8>>::empty(),
            tx.cached() is None,
    {
        let tx = Self { changes: BTreeMap::new(), page: None };
        assert(tx.changes() =~= Map::<u64, Seq<u8>>::empty());
        tx
    }

    /// Drops every pending write whose offset lies in the sector that starts at
    /// `offset`.
    pub fn reset_sector(&mut self, offset: u64)
        requires
            offset + SECTOR_SIZE <= u64::MAX,
        ensures
            final(self).changes() == old(self).changes().remove_keys(
                Set::new(|k: u64| offset <= k < offset + SECTOR_SIZE),
            ),
            final(self).cached() == old(self).cached(),
    {
        let to_remove = keys_in(&self.changes, offset, offset + (SECTOR_SIZE - 1));
        let ghost before = self.changes@;
        let mut i: usize = 0;
        while i < to_remove.len()
            invariant
                0 <= i <= to_remove@.len(),
                self.page == old(self).page,
                forall|k: u64|
                    to_remove@.contains(k) <==> (before.contains_key(k) && offset <= k <= offset + (
                    SECTOR_SIZE - 1)),
                forall|k: u64|
                    #![trigger self.changes@.contains_key(k)]
                    #![trigger before.contains_key(k)]
                    self.changes@.contains_key(k) <==> (before.contains_key(k) && !in_prefix(
                        to_remove@,
                        i as int,
                        k,
                    )),
                forall|k: u64|
                    #![trigger self.changes@[k]]
                    self.changes@.contains_key(k) ==> self.changes@[k] == before[k],
            decreases to_remove@.len() - i,
        {
            let key = to_remove[i];
            let ghost prev = self.changes@;
            let ghost i0 = i as int;
            self.changes.remove(&key);
            i += 1;
            proof {
                assert(self.changes@ == prev.remove(key));
                assert forall|k: u64|
                    self.changes@.contains_key(k) <==> (before.contains_key(k) && !in_prefix(
                        to_remove@,
                        i as int,
                        k,
                    )) by {
                    if in_prefix(to_remove@, i as int, k) {
                        let j = choose|j: int|
                            0 <= j < i && j < to_remove@.len() && to_remove@[j] == k;
                        if j < i0 {
                            assert(in_prefix(to_remove@, i0, k));
                        }
                    }
                    if in_prefix(to_remove@, i0, k) {
                        let j = choose|j: int|
                            0 <= j < i0 && j < to_remove@.len() && to_remove@[j] == k;
                        assert(0 <= j < i && to_remove@[j] == k);
                    }
                    if k == key {
                        assert(0 <= i0 < i && to_remove@[i0] == k);
                    }
                    assert(prev.contains_key(k) <==> (before.contains_key(k) && !in_prefix(
                        to_remove@,
                        i0,
                        k,
                    )));
                }
            }
        }
        proof {
            assert forall|k: u64| to_remove@.contains(k) <==> in_prefix(
                to_remove@,
                i as int,
                k,
            ) by {
                if to_remove@.contains(k) {
                    let j = choose|j: int| 0 <= j < to_remove@.len() && to_remove@[j] == k;
                    assert(0 <= j < i && to_remove@[j] == k);
                }
            }
            assert(self.changes() =~= old(self).changes().remove_keys(
                Set::new(|k: u64| offset <= k < offset + SECTOR_SIZE),
            ));
        }
    }

    /// Records the intent to write `data` at `offset`.
    pub fn set(&mut self, offset: u64, data: Vec<u8>)
        requires
            old(self).changes().contains_key(offset) ==> old(self).changes()[offset].len()
                == data@.len(),
        ensures
            final(self).changes() == old(self).changes().insert(offset, data@),
            final(self).cached() == old(self).cached(),
    {
        let ghost bytes = data@;
        self.changes.insert(offset, data);
        assert(self.changes() =~= old(self).changes().insert(offset, bytes));
    }

    /// Empties the page cache.
    pub fn drop_page(&mut self)
        ensures
            final(self).changes() == old(self).changes(),
            final(self).cached() is None,
    {
        self.page = None;
    }

    /// Whether a write is pending at `offset`, and its length.
    pub fn pending_len(&self, offset: u64) -> (len: Option<usize>)
        ensures
            len is Some <==> self.changes().contains_key(offset),
            len is Some ==> len->0 == self.changes()[offset].len(),
    {
        match self.changes.get(&offset) {
            Some(data) => Some(data.len()),
            None => None,
        }
    }

    /// Number of pending writes.
    pub fn pending_count(&self) -> (count: usize)
        ensures
            count == self.changes().dom().len(),
    {
        assert(self.changes().dom() =~= self.changes@.dom());
        self.changes.len()
    }

    /// Makes `fetched_page` hold the page of `disk` that contains `offset`. A dirty
    /// page that has to make room is written to `disk` first.
    pub fn fetch_page(fetched_page: &mut Option<FetchedPage>, disk: &mut Vec<u8>, offset: u64)
        requires
            slot_consistent(*old(fetched_page), old(disk)@),
            page_base(offset) + PAGE_SIZE <= old(disk)@.len(),
        ensures
            slot_consistent(*final(fetched_page), final(disk)@),
            (*final(fetched_page)) is Some,
            (*final(fetched_page))->0.offset == page_base(offset),
            through_slot(*final(fetched_page), final(disk)@) == through_slot(
                *old(fetched_page),
                old(disk)@,
            ),
            final(disk)@.len() == old(disk)@.len(),
            (*old(fetched_page)) is Some && (*old(fetched_page))->0.offset == page_base(offset) ==> {
                &&& *final(fetched_page) == *old(fetched_page)
                &&& final(disk)@ == old(disk)@
            },
            !((*old(fetched_page)) is Some && (*old(fetched_page))->0.offset == page_base(offset)) ==> {
                &&& !(*final(fetched_page))->0.is_dirty
                &&& final(disk)@ == through_slot(*old(fetched_page), old(disk)@)
            },
    {
        let base = page_start(offset);
        let held = match fetched_page {
            Some(page) => page.offset == base,
            None => false,
        };
        if !held {
            Self::may_be_flush_page(fetched_page, disk);
            let total = disk.len();
            let page = copy_range(disk, base as usize, PAGE_SIZE as usize);
            *fetched_page = Some(FetchedPage { offset: base, page, is_dirty: false });
        }
    }

    /// Empties `fetched_page`, after writing its page to `disk` if it is dirty.
    pub fn may_be_flush_page(fetched_page: &mut Option<FetchedPage>, disk: &mut Vec<u8>)
        requires
            slot_fits(*old(fetched_page), old(disk)@.len()),
        ensures
            (*final(fetched_page)) is None,
            final(disk)@ == through_slot(*old(fetched_page), old(disk)@),
            final(disk)@.len() == old(disk)@.len(),
    {
        let total = disk.len();
        match fetched_page.take() {
            Some(page) => {
                if page.is_dirty {
                    write_bytes(disk, page.offset as usize, &page.page);
                }
            },
            None => {},
        }
    }

    /// Returns `len` bytes from `offset`: the pending write at that offset if there
    /// is one, the bytes of the file otherwise.
    pub fn get(&mut self, disk: &mut Vec<u8>, offset: u64, len: u64) -> (data: Vec<u8>)
        requires
            old(self).coherent(old(disk)@),
            readable(old(self).changes(), old(disk)@, offset, len as nat),
        ensures
            data@ == old(self).reads(old(disk)@, offset, len as nat),
            data@.len() == len,
            final(self).changes() == old(self).changes(),
            final(self).coherent(final(disk)@),
            final(disk)@ == old(disk)@,
    {
        match self.changes.get(&offset) {
            Some(data) => {
                return data.clone();
            },
            None => {},
        }
        let total = disk.len();
        let within = (offset % PAGE_SIZE) as usize;
        Self::fetch_page(&mut self.page, disk, offset);
        match &self.page {
            Some(fetched) => {
                let data = copy_range(&fetched.page, within, len as usize);
                assert(data@ =~= disk@.subrange(offset as int, offset + len));
                data
            },
            None => Vec::new(),
        }
    }

    /// Returns the number held in the eight bytes at `offset`.
    pub fn get_num(&mut self, disk: &mut Vec<u8>, offset: u64) -> (num: u64)
        requires
            old(self).coherent(old(disk)@),
            readable(old(self).changes(), old(disk)@, offset, 8),
        ensures
            num == old(self).reads_num(old(disk)@, offset),
            final(self).changes() == old(self).changes(),
            final(self).coherent(final(disk)@),
            final(disk)@ == old(disk)@,
    {
        let data = self.get(disk, offset, 8);
        assert(data@.subrange(0, 8) =~= data@);
        decode_num(&data, 0)
    }

    /// Serialises the pending writes as a write-ahead log.
    pub fn write_to_log(&self) -> (wal: Vec<u8>)
        ensures
            wal@ == wal_image(self.changes()),
    {
        let keys = keys_in(&self.changes, 0, u64::MAX);
        let ghost pending = self.changes();
        proof {
            assert(lists_keys(pending, keys@));
            lemma_ascending_keys(pending);
            lemma_lists_keys_unique(pending, keys@, ascending_keys(pending));
            assert(pending.dom() =~= self.changes@.dom());
        }
        let mut wal = encode_num(self.changes.len() as u64);
        let mut i: usize = 0;
        while i < keys.len()
            invariant
                0 <= i <= keys@.len(),
                self.changes() == pending,
                lists_keys(pending, keys@),
                wal@ == num_bytes(pending.dom().len() as u64) + records_bytes(
                    pending,
                    keys@.subrange(0, i as int),
                ),
            decreases keys@.len() - i,
        {
            let offset = keys[i];
            proof {
                assert(keys@.contains(offset));
                assert(self.changes@.contains_key(offset));
            }
            match self.changes.get(&offset) {
                Some(data) => {
                    let ghost head = wal@;
                    let part = encode_num(offset);
                    wal.extend_from_slice(part.as_slice());
                    let part = encode_num(data.len() as u64);
                    wal.extend_from_slice(part.as_slice());
                    wal.extend_from_slice(data.as_slice());
                    proof {
                        let done = keys@.subrange(0, i as int);
                        let next = keys@.subrange(0, i + 1);
                        assert(next.drop_last() =~= done);
                        assert(next.last() == offset);
                        assert(wal@ =~= head + record_bytes(offset, data@));
                        assert(wal@ =~= num_bytes(pending.dom().len() as u64) + records_bytes(
                            pending,
                            next,
                        ));
                    }
                },
                None => {},
            }
            i += 1;
        }
        let ghost body = wal@;
        let part = encode_num(WAL_MAGIC);
        wal.extend_from_slice(part.as_slice());
        proof {
            assert(keys@.subrange(0, i as int) =~= keys@);
            assert(wal@ =~= body + num_bytes(WAL_MAGIC));
        }
        wal
    }

    /// Replays a write-ahead log on top of the pending writes. Returns whether the
    /// log was complete; the writes of the records read until then are pending in
    /// either case.
    pub fn maybe_replay_log(&mut self, wal: &Vec<u8>) -> (complete: bool)
        ensures
            final(self).changes() == replay(wal@, old(self).changes()).0,
            complete == replay(wal@, old(self).changes()).1,
            final(self).cached() == old(self).cached(),
    {
        let total = wal.len();
        if total < 8 {
            return false;
        }
        let count = decode_num(wal, 0);
        let ghost start = old(self).changes();
        let mut pos: usize = 8;
        let mut i: u64 = 0;
        while i < count
            invariant
                0 <= i <= count,
                8 <= pos <= total,
                total == wal@.len(),
                self.page == old(self).page,
                start == old(self).changes(),
                count == num_of(wal@.subrange(0, 8)),
                read_records(wal@, 8, count as nat, start) == read_records(
                    wal@,
                    pos as int,
                    (count - i) as nat,
                    self.changes(),
                ),
            decreases count - i,
        {
            let ghost rest = (count - i) as nat;
            let ghost acc = self.changes();
            if total - pos < 16 {
                assert(read_records(wal@, pos as int, rest, acc) == (acc, pos as int, false));
                return false;
            }
            let offset = decode_num(wal, pos);
            let len = decode_num(wal, pos + 8);
            if len > (total - pos - 16) as u64 {
                assert(read_records(wal@, pos as int, rest, acc) == (acc, pos as int, false));
                return false;
            }
            let len = len as usize;
            match self.pending_len(offset) {
                Some(pending) => {
                    if pending != len {
                        assert(read_records(wal@, pos as int, rest, acc) == (
                            acc,
                            pos as int,
                            false,
                        ));
                        return false;
                    }
                },
                None => {},
            }
            let data = copy_range(wal, pos + 16, len);
            self.set(offset, data);
            assert(read_records(wal@, pos as int, rest, acc) == read_records(
                wal@,
                pos + 16 + len,
                (rest - 1) as nat,
                self.changes(),
            ));
            pos = pos + 16 + len;
            i += 1;
        }
        assert(read_records(wal@, pos as int, 0, self.changes()) == (
            self.changes(),
            pos as int,
            true,
        ));
        if total - pos < 8 {
            return false;
        }
        decode_num(wal, pos) == WAL_MAGIC
    }

    /// Tells whether every pending write lies within one page of a file of
    /// `disk_len` bytes.
    pub fn fits(&self, disk_len: usize) -> (fits: bool)
        ensures
            fits == forall|k: u64| #[trigger]
                self.changes().contains_key(k) ==> within_page(k, self.changes()[k].len())
                    && page_base(k) + PAGE_SIZE <= disk_len,
    {
        let keys = keys_in(&self.changes, 0, u64::MAX);
        let mut i: usize = 0;
        while i < keys.len()
            invariant
                0 <= i <= keys@.len(),
                forall|k: u64| keys@.contains(k) <==> self.changes@.contains_key(k),
                forall|j: int|
                    0 <= j < i ==> within_page(
                        #[trigger] keys@[j],
                        self.changes()[keys@[j]].len(),
                    ) && page_base(keys@[j]) + PAGE_SIZE <= disk_len,
            decreases keys@.len() - i,
        {
            let offset = keys[i];
            proof {
                assert(keys@.contains(offset));
            }
            match self.changes.get(&offset) {
                Some(data) => {
                    let within = offset % PAGE_SIZE;
                    let len = data.len();
                    if len > (PAGE_SIZE - within) as usize || (disk_len as u64) < PAGE_SIZE
                        || offset - within > disk_len as u64 - PAGE_SIZE {
                        assert(self.changes().contains_key(offset));
                        return false;
                    }
                },
                None => {},
            }
            i += 1;
        }
        proof {
            assert forall|k: u64| #[trigger] self.changes().contains_key(k) implies within_page(
                k,
                self.changes()[k].len(),
            ) && page_base(k) + PAGE_SIZE <= disk_len by {
                assert(keys@.contains(k));
                let j = choose|j: int| 0 <= j < keys@.len() && keys@[j] == k;
                assert(keys@[j] == k);
            }
        }
        true
    }

    /// Applies all pending writes to `disk`, in ascending order of offset, and forgets
    /// them. Each page that holds a write is fetched once, changed in memory and
    /// written back once. Returns the offsets of the pages written, in ascending
    /// order; the cached page is dropped.
    pub fn flush_changes(&mut self, disk: &mut Vec<u8>) -> (written: Vec<u64>)
        requires
            flushable(old(self).changes(), old(disk)@),
        ensures
            final(disk)@ == overlay(old(disk)@, old(self).changes()),
            final(self).changes() == Map::<u64, Seq<u8>>::empty(),
            final(self).cached() is None,
            forall|a: int, b: int| 0 <= a < b < written@.len() ==> written@[a] < written@[b],
            forall|p: u64|
                written@.contains(p) <==> exists|k: u64|
                    old(self).changes().contains_key(k) && page_base(k) == p,
    {
        let keys = keys_in(&self.changes, 0, u64::MAX);
        let ghost before = old(disk)@;
        let ghost pending = old(self).changes();
        let total = disk.len();
        let mut page: Option<FetchedPage> = None;
        let mut written: Vec<u64> = Vec::new();
        proof {
            let bound = if 0 < keys@.len() {
                keys@[0] as int
            } else {
                u64::MAX + 1
            };
            assert forall|k: u64| pending.contains_key(k) implies !(k < bound) by {
                assert(keys@.contains(k));
                let j = choose|j: int| 0 <= j < keys@.len() && keys@[j] == k;
                if j > 0 {
                    assert(keys@[0] < keys@[j]);
                }
            }
            assert(below(pending, bound) =~= Map::<u64, Seq<u8>>::empty());
            lemma_overlay_empty(before);
        }
        let mut i: usize = 0;
        while i < keys.len()
            invariant
                0 <= i <= keys@.len(),
                self.changes() == pending,
                flushable(pending, before),
                disk@.len() == before.len(),
                before.len() == total,
                forall|a: int, b: int| 0 <= a < b < keys@.len() ==> keys@[a] < keys@[b],
                forall|k: u64| keys@.contains(k) <==> pending.contains_key(k),
                slot_consistent(page, disk@),
                through_slot(page, disk@) == overlay(
                    before,
                    below(pending, if i < keys@.len() { keys@[i as int] as int } else { u64::MAX + 1 }),
                ),
                i == 0 ==> page is None && written@.len() == 0,
                i > 0 ==> page is Some && page->0.is_dirty && page->0.offset == page_base(
                    keys@[i - 1],
                ) && written@.len() > 0 && written@.last() == page->0.offset,
                forall|a: int, b: int| 0 <= a < b < written@.len() ==> written@[a] < written@[b],
                forall|p: u64|
                    written@.contains(p) <==> exists|k: u64|
                        in_prefix(keys@, i as int, k) && page_base(k) == p,
            decreases keys@.len() - i,
        {
            let offset = keys[i];
            let ghost lower = below(pending, offset as int);
            let ghost old_written = written@;
            let ghost i0 = i as int;
            proof {
                assert(keys@.contains(offset));
                assert(pending.contains_key(offset));
                assert(self.changes@.contains_key(offset));
                if i > 0 {
                    assert(keys@[i - 1] < offset);
                }
            }
            let within = (offset % PAGE_SIZE) as usize;
            Self::fetch_page(&mut page, disk, offset);
            match self.changes.get(&offset) {
                Some(data) => {
                    match page.take() {
                        Some(mut fetched) => {
                            let ghost image = through_slot(Some(fetched), disk@);
                            if !fetched.is_dirty {
                                written.push(fetched.offset);
                            }
                            write_bytes(&mut fetched.page, within, data);
                            fetched.is_dirty = true;
                            proof {
                                assert(data@ == pending[offset]);
                                assert(through_slot(Some(fetched), disk@) =~= write_at(
                                    image,
                                    offset as int,
                                    data@,
                                ));
                                lemma_overlay_step(before, lower, offset, data@);
                                let bound = if i + 1 < keys@.len() {
                                    keys@[i + 1] as int
                                } else {
                                    u64::MAX + 1
                                };
                                assert forall|k: u64| #[trigger]
                                    pending.contains_key(k) && k < bound implies k <= offset by {
                                    assert(keys@.contains(k));
                                    let j = choose|j: int| 0 <= j < keys@.len() && keys@[j] == k;
                                    if j > i {
                                        assert(i + 1 < keys@.len());
                                        if j > i + 1 {
                                            assert(keys@[i + 1] < keys@[j]);
                                        }
                                    }
                                    if j < i {
                                        assert(keys@[j] < keys@[i as int]);
                                    }
                                }
                                assert(below(pending, bound) =~= lower.insert(offset, data@));
                            }
                            page = Some(fetched);
                        },
                        None => {},
                    }
                },
                None => {},
            }
            i += 1;
            proof {
                assert forall|k: u64| in_prefix(keys@, i as int, k) <==> (in_prefix(keys@, i0, k)
                    || k == offset) by {
                    if in_prefix(keys@, i as int, k) {
                        let j = choose|j: int| 0 <= j < i && j < keys@.len() && keys@[j] == k;
                        if j < i0 {
                            assert(in_prefix(keys@, i0, k));
                        }
                    }
                    if in_prefix(keys@, i0, k) {
                        let j = choose|j: int| 0 <= j < i0 && j < keys@.len() && keys@[j] == k;
                        assert(0 <= j < i && keys@[j] == k);
                    }
                    if k == offset {
                        assert(0 <= i0 < i && keys@[i0] == k);
                    }
                }
                let base = page_base(offset);
                if written@.len() == old_written.len() {
                    assert(written@ == old_written);
                    assert(in_prefix(keys@, i0, keys@[i0 - 1]));
                } else {
                    assert(written@ == old_written.push(base));
                    if i0 > 0 {
                        lemma_page_base_monotone(keys@[i0 - 1], offset);
                    }
                }
                assert forall|p: u64|
                    written@.contains(p) <==> exists|k: u64|
                        in_prefix(keys@, i as int, k) && page_base(k) == p by {
                    if written@.contains(p) {
                        if old_written.contains(p) {
                            let k = choose|k: u64| in_prefix(keys@, i0, k) && page_base(k) == p;
                            assert(in_prefix(keys@, i as int, k) && page_base(k) == p);
                        } else {
                            let j = choose|j: int| 0 <= j < written@.len() && written@[j] == p;
                            if j < old_written.len() {
                                assert(old_written[j] == p);
                            }
                            assert(p == base);
                            assert(in_prefix(keys@, i as int, offset) && page_base(offset) == p);
                        }
                    }
                    if exists|k: u64| in_prefix(keys@, i as int, k) && page_base(k) == p {
                        let k = choose|k: u64| in_prefix(keys@, i as int, k) && page_base(k) == p;
                        if k == offset {
                            assert(written@.last() == p);
                            assert(written@[written@.len() - 1] == p);
                        } else {
                            assert(in_prefix(keys@, i0, k));
                            assert(old_written.contains(p));
                            let j = choose|j: int|
                                0 <= j < old_written.len() && old_written[j] == p;
                            assert(written@[j] == p);
                        }
                    }
                }
            }
        }
        Self::may_be_flush_page(&mut page, disk);
        self.changes.clear();
        self.page = None;
        proof {
            assert(below(pending, u64::MAX + 1) =~= pending);
            assert(self.changes() =~= Map::<u64, Seq<u8>>::empty());
            assert forall|p: u64|
                written@.contains(p) <==> exists|k: u64|
                    pending.contains_key(k) && page_base(k) == p by {
                if written@.contains(p) {
                    let k = choose|k: u64| in_prefix(keys@, i as int, k) && page_base(k) == p;
                    let j = choose|j: int| 0 <= j < i && j < keys@.len() && keys@[j] == k;
                    assert(keys@.contains(k));
                }
                if exists|k: u64| pending.contains_key(k) && page_base(k) == p {
                    let k = choose|k: u64| pending.contains_key(k) && page_base(k) == p;
                    assert(keys@.contains(k));
                    let j = choose|j: int| 0 <= j < keys@.len() && keys@[j] == k;
                    assert(in_prefix(keys@, i as int, k));
                }
            }
        }
        written
    }
}

/// The page of a greater offset does not start before the page of a smaller one.
pub proof fn lemma_page_base_monotone(a: u64, b: u64)
    requires
        a <= b,
    ensures
        page_base(a) <= page_base(b),
{
}

} // verus!
