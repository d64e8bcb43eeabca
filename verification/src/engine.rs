use std::collections::BTreeMap;
use vstd::prelude::*;
use crate::codec::encode_num;
use crate::codec::lemma_num_roundtrip;
use crate::codec::lemma_num_zero;
use crate::codec::lemma_zero_entry;
use crate::codec::num_bytes;
use crate::codec::zero_bytes;
use crate::codec::zeros;
use crate::flushing::flushed;
use crate::flushing::lemma_flushed_steady;
use crate::image::Image;
use crate::indexshape::slot_offset;
use crate::layout::FIRST_SECTOR_OFFSET;
use crate::layout::HASH_LEN;
use crate::layout::NEXT_DELMAP_PHYSICAL_OFFSET;
use crate::layout::NEXT_VALUE_PHYSICAL_OFFSET;
use crate::layout::PAGE_TYPE_HT;
use crate::layout::SECTOR_TYPE_OFFSET;
use crate::layout::SLOTS_IN_SECTOR;
use crate::logshape::delmap_follows;
use crate::logshape::values_follow;
use crate::shape::lemma_conforming_flushable;
use crate::table::HashTable;
use crate::transaction::TableTransaction;
use crate::transaction::write_at;
use crate::transaction::write_bytes;

verus! {

/// Size of a database that holds nothing: the header and one sector of the index.
pub const INITIAL_SIZE: u64 = 0x10_1000;

/// The bytes of a database that holds nothing: zeros but for the size of the file,
/// the two write positions, which stand at the end of the header, and the type of the
/// first sector, which belongs to the index.
pub open spec fn initial_disk() -> Seq<u8> {
    write_at(
        write_at(
            write_at(
                write_at(zeros(INITIAL_SIZE as nat), 0, num_bytes(INITIAL_SIZE)),
                NEXT_VALUE_PHYSICAL_OFFSET as int,
                num_bytes(FIRST_SECTOR_OFFSET),
            ),
            NEXT_DELMAP_PHYSICAL_OFFSET as int,
            num_bytes(FIRST_SECTOR_OFFSET),
        ),
        FIRST_SECTOR_OFFSET + SECTOR_TYPE_OFFSET,
        num_bytes(PAGE_TYPE_HT),
    )
}

/// The image of a database that holds nothing.
pub open spec fn initial_image() -> Image {
    Image { changes: Map::<u64, Seq<u8>>::empty(), disk: initial_disk() }
}

/// What the initial database reads as: each header field, and zeros elsewhere.
pub proof fn lemma_initial_reads()
    ensures
        initial_disk().len() == INITIAL_SIZE,
        initial_image().num(0) == INITIAL_SIZE,
        initial_image().num(8) == 0,
        initial_image().num(16) == 0,
        initial_image().num(24) == 0,
        initial_image().num(32) == FIRST_SECTOR_OFFSET,
        initial_image().num(48) == FIRST_SECTOR_OFFSET,
        initial_image().kind(FIRST_SECTOR_OFFSET) == PAGE_TYPE_HT,
        initial_image().read(FIRST_SECTOR_OFFSET, HASH_LEN as nat) == zeros(HASH_LEN as nat),
        initial_image().num((FIRST_SECTOR_OFFSET + 32) as u64) == 0,
        forall|j: int|
            0 <= j < SLOTS_IN_SECTOR ==> #[trigger] initial_image().slot(FIRST_SECTOR_OFFSET, j)
                == zeros(32),
{
    let disk = initial_disk();
    lemma_num_roundtrip(INITIAL_SIZE);
    lemma_num_roundtrip(FIRST_SECTOR_OFFSET);
    lemma_num_roundtrip(PAGE_TYPE_HT);
    lemma_num_zero();
    assert(disk.subrange(0, 8) =~= num_bytes(INITIAL_SIZE));
    assert(disk.subrange(8, 16) =~= zeros(8));
    assert(disk.subrange(16, 24) =~= zeros(8));
    assert(disk.subrange(24, 32) =~= zeros(8));
    assert(disk.subrange(32, 40) =~= num_bytes(FIRST_SECTOR_OFFSET));
    assert(disk.subrange(48, 56) =~= num_bytes(FIRST_SECTOR_OFFSET));
    assert(disk.subrange(4144, 4152) =~= num_bytes(PAGE_TYPE_HT));
    assert(disk.subrange(4096, 4122) =~= zeros(26));
    assert(disk.subrange(4128, 4136) =~= zeros(8));
    assert forall|j: int| 0 <= j < SLOTS_IN_SECTOR implies #[trigger] initial_image().slot(
        FIRST_SECTOR_OFFSET,
        j,
    ) == zeros(32) by {
        let at = slot_offset(FIRST_SECTOR_OFFSET, j);
        assert(disk.subrange(at, at + 32) =~= zeros(32));
    }
}

/// A sector whose entries are all zero has none in use.
pub proof fn lemma_occupied_none(image: Image, base: u64, n: int)
    requires
        forall|j: int| 0 <= j < n ==> #[trigger] image.slot(base, j) == zeros(32),
    ensures
        image.occupied(base, n) == 0,
    decreases n,
{
    if n > 0 {
        lemma_occupied_none(image, base, n - 1);
        assert(image.slot(base, n - 1) == zeros(32));
        lemma_zero_entry();
    }
}

impl HashTable {
    /// Makes the bytes of a database that holds nothing.
    #[verifier::spinoff_prover]
    pub fn initial_bytes() -> (disk: Vec<u8>)
        ensures
            disk@ == initial_disk(),
    {
        let mut disk = zero_bytes(INITIAL_SIZE as usize);
        write_bytes(&mut disk, 0, &encode_num(INITIAL_SIZE));
        write_bytes(
            &mut disk,
            NEXT_VALUE_PHYSICAL_OFFSET as usize,
            &encode_num(FIRST_SECTOR_OFFSET),
        );
        write_bytes(
            &mut disk,
            NEXT_DELMAP_PHYSICAL_OFFSET as usize,
            &encode_num(FIRST_SECTOR_OFFSET),
        );
        write_bytes(
            &mut disk,
            (FIRST_SECTOR_OFFSET + SECTOR_TYPE_OFFSET) as usize,
            &encode_num(PAGE_TYPE_HT),
        );
        disk
    }

    /// Opens a database that holds nothing.
    #[verifier::spinoff_prover]
    pub fn create(salt: [u8; 32]) -> (table: HashTable)
        ensures
            table.wf(),
            table.image() == initial_image(),
            table.free_list() == Seq::<u64>::empty(),
            table.memory().salt == salt,
            table.memory().del_balance == 0,
            table.memory().writes_since_resize == 0,
            table.rested(),
            table.linked(),
            forall|hash: Seq<u8>| #[trigger] table.stored(hash) is None,
    {
        proof {
            reveal(HashTable::stored);
            reveal(HashTable::linked_but);
        }
        proof {
            reveal(crate::upkeep::steady);
        }
        let disk = Self::initial_bytes();
        let mut ht_mapping: Vec<([u8; 26], u64)> = Vec::new();
        ht_mapping.push(([0u8; 26], FIRST_SECTOR_OFFSET));
        let table = HashTable {
            salt,
            disk,
            tx: TableTransaction::new(),
            ht_mapping,
            values_mapping: BTreeMap::new(),
            delmap_mapping: BTreeMap::new(),
            writes_since_resize: 0,
            del_balance: 0,
            free_chain: Ghost(Seq::<u64>::empty()),
        };
        proof {
            let image = table.image();
            assert(image == initial_image());
            lemma_initial_reads();
            lemma_occupied_none(image, FIRST_SECTOR_OFFSET, SLOTS_IN_SECTOR as int);
            assert(table.ht_mapping@[0].0@ =~= zeros(HASH_LEN as nat));
            reveal(values_follow);
            reveal(delmap_follows);
            assert(image.index_sector_ok(zeros(26), FIRST_SECTOR_OFFSET));
            crate::resize::lemma_empty_index(image, table.ht_mapping@);
            crate::accounting::lemma_accounted_single(
                image,
                table.ht_mapping@,
                table.values_mapping@,
                table.delmap_mapping@,
            );
            crate::linked::lemma_linked_empty(
                image,
                table.ht_mapping@,
                table.values_mapping@,
                table.delmap_mapping@,
            );
            assert(table.image().linked_but(
                table.memory().ht,
                table.memory().values,
                table.memory().delmap,
                Seq::<u64>::empty(),
                None,
            ));
        }
        table
    }
}

impl HashTable {
    /// A flush leaves a linked engine linked, and what the engine holds as it is.
    pub proof fn lemma_flushed_linked(&self)
        requires
            self.wf(),
        ensures
            forall|hash: Seq<u8>|
                #[trigger] flushed(self.image()).fetch(self.memory().ht, self.memory().values, hash)
                    == self.stored(hash),
            self.linked() ==> exists|recs: Seq<u64>|
                #[trigger] flushed(self.image()).linked_but(
                    self.memory().ht,
                    self.memory().values,
                    self.memory().delmap,
                    recs,
                    None,
                ),
    {
        reveal(HashTable::stored);
        reveal(HashTable::linked_but);
        let image = self.image();
        let after = flushed(image);
        let ht = self.ht_mapping@;
        let values = self.values_mapping@;
        let delmap = self.delmap_mapping@;
        crate::recovery::lemma_flushed_answers(*self);
        if self.linked() {
            let recs = choose|recs: Seq<u64>|
                #[trigger] image.linked_but(ht, values, delmap, recs, None);
            crate::upkeep::lemma_steady_cells(image, self.free_list(), ht, values, delmap);
            crate::flushing::lemma_flushed_log(image, self.free_list(), ht, values, delmap);
            crate::logview::lemma_kept_log(
                image,
                after,
                values,
                delmap,
                image.first_logical(),
                image.next_logical(),
                image.next_value_physical(),
                image.next_delmap_physical(),
            );
            crate::linked::lemma_linked_kept(
                image,
                ht,
                values,
                delmap,
                after,
                ht,
                values,
                delmap,
                recs,
                None,
            );
        }
    }

    /// Applies the pending writes to the file and forgets them. Returns the offsets
    /// of the pages of the file that were written, in ascending order.
    #[verifier::spinoff_prover]
    pub fn flush_changes(&mut self) -> (written: Vec<u64>)
        requires
            old(self).wf(),
        ensures
            final(self).wf(),
            final(self).image() == flushed(old(self).image()),
            final(self).memory() == old(self).memory(),
            final(self).free_list() == old(self).free_list(),
            final(self).holds_as(old(self), None),
            old(self).linked() ==> final(self).linked(),
            forall|a: int, b: int| 0 <= a < b < written@.len() ==> written@[a] < written@[b],
            forall|p: u64|
                written@.contains(p) <==> exists|k: u64|
                    old(self).image().changes.contains_key(k) && crate::layout::page_base(k) == p,
    {
        proof {
            reveal(HashTable::stored);
            reveal(HashTable::linked_but);
        }
        proof {
            reveal(crate::upkeep::steady);
        }
        proof {
            lemma_conforming_flushable(self.image());
            lemma_flushed_steady(
                self.image(),
                self.free_list(),
                self.ht_mapping@,
                self.values_mapping@,
                self.delmap_mapping@,
            );
            crate::flushing::lemma_flushed_index(
                self.image(),
                self.free_list(),
                self.ht_mapping@,
                self.values_mapping@,
                self.delmap_mapping@,
            );
            crate::indexlaws::lemma_kept_sound(
                self.image(),
                flushed(self.image()),
                self.ht_mapping@,
            );
            self.lemma_flushed_linked();
            crate::flushing::lemma_flushed_sectors(
                self.image(),
                self.free_list(),
                self.ht_mapping@,
                self.values_mapping@,
                self.delmap_mapping@,
            );
            crate::accounting::lemma_accounted_kept(
                self.image(),
                flushed(self.image()),
                self.ht_mapping@,
                self.values_mapping@,
                self.delmap_mapping@,
                0,
            );
        }
        self.tx.flush_changes(&mut self.disk)
    }

    /// Serialises the pending writes as a write-ahead log.
    #[verifier::spinoff_prover]
    pub fn write_to_log(&self) -> (wal: Vec<u8>)
        ensures
            wal@ == crate::wal::wal_image(self.image().changes),
    {
        self.tx.write_to_log()
    }

    /// The bytes of the database file, without the pending writes.
    #[verifier::spinoff_prover]
    pub fn disk(&self) -> (disk: &Vec<u8>)
        ensures
            disk@ == self.image().disk,
    {
        &self.disk
    }

    /// Forgets the credit for compaction.
    #[verifier::spinoff_prover]
    pub fn reset_del_balance(&mut self)
        requires
            old(self).wf(),
        ensures
            final(self).wf(),
            final(self).image() == old(self).image(),
            final(self).free_list() == old(self).free_list(),
            final(self).memory() == (crate::table::Memory { del_balance: 0, ..old(self).memory() }),
            final(self).rested(),
            final(self).linked() == old(self).linked(),
            final(self).holds_as(old(self), None),
    {
        self.del_balance = 0;
        proof {
            old(self).lemma_linked_same(self, None);
        }
    }
}

} // verus!
