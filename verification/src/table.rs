use std::collections::BTreeMap;
use vstd::prelude::*;
use crate::image::Image;
use crate::transaction::TableTransaction;

verus! {

/// What the engine keeps in memory besides the file and its transaction.
pub struct Memory {
    pub salt: [u8; 32],
    pub ht: Seq<([u8; 26], u64)>,
    pub values: Map<u64, u64>,
    pub delmap: Map<u64, u64>,
    pub writes_since_resize: u64,
    pub del_balance: i64,
}

/// The storage engine: a hash index, a value log and a deletion bitmap, kept in the
/// sectors of one paged file, behind a transaction that buffers all writes.
pub struct HashTable {
    /// Salt that enters every key hash.
    pub(crate) salt: [u8; 32],
    /// The bytes of the database file.
    pub(crate) disk: Vec<u8>,
    /// The transaction through which the file is read and written.
    pub(crate) tx: TableTransaction,
    /// For each sector of the hash index its smallest hash and its file offset, in
    /// ascending order of hash.
    pub(crate) ht_mapping: Vec<([u8; 26], u64)>,
    /// For each sector of the value log, by the logical offset of its first slot,
    /// the file offset of that slot.
    pub(crate) values_mapping: BTreeMap<u64, u64>,
    /// For each sector of the deletion bitmap, by the first logical offset it
    /// covers, the file offset of its first entry.
    pub(crate) delmap_mapping: BTreeMap<u64, u64>,
    /// Number of index entries taken since a sector of the index was last split.
    pub(crate) writes_since_resize: u64,
    /// Credit for compaction: deletions earn it, writes and moves spend it.
    pub(crate) del_balance: i64,
    /// The sectors on the free list, head first.
    pub(crate) free_chain: Ghost<Seq<u64>>,
}

impl HashTable {
    /// The file together with the pending writes.
    pub open(crate) spec fn image(&self) -> Image {
        Image { changes: self.tx.changes(), disk: self.disk@ }
    }

    /// The directories and counters kept in memory.
    pub open(crate) spec fn memory(&self) -> Memory {
        Memory {
            salt: self.salt,
            ht: self.ht_mapping@,
            values: self.values_mapping@,
            delmap: self.delmap_mapping@,
            writes_since_resize: self.writes_since_resize,
            del_balance: self.del_balance,
        }
    }

    /// The sectors on the free list, head first.
    pub open(crate) spec fn free_list(&self) -> Seq<u64> {
        self.free_chain@
    }

    /// The credit for compaction is covered by the extent of the log, and its debt by
    /// the slots appended and moved so far.
    pub open(crate) spec fn balance_ok(&self) -> bool {
        &&& self.del_balance <= self.image().next_logical()
        &&& self.del_balance + 2 * self.image().next_logical() + self.image().first_logical()
            >= 0
    }

    /// No credit for compaction is left over: what holds between two operations on
    /// keys and values.
    pub open(crate) spec fn rested(&self) -> bool {
        self.del_balance <= 0
    }

    /// The engine is sound: the allocator is, every pending write respects the
    /// layout of the file, the free sectors are marked free, the value log, its
    /// bitmap and the index are laid out as their directories say, every entry of
    /// the index is where the search for its hash ends, and the directories account
    /// for every sector of the file.
    pub open(crate) spec fn wf(&self) -> bool {
        &&& self.tx.coherent(self.disk@)
        &&& self.image().index_sound(self.ht_mapping@)
        &&& self.image().accounted(self.ht_mapping@, self.values_mapping@, self.delmap_mapping@)
        &&& crate::upkeep::steady(
            self.image(),
            self.free_list(),
            self.ht_mapping@,
            self.values_mapping@,
            self.delmap_mapping@,
        )
        &&& self.image().cursors_ok()
        &&& crate::logshape::values_follow(
            self.image().first_logical(),
            self.image().next_logical(),
            self.image().next_value_physical(),
            self.values_mapping@,
        )
        &&& crate::logshape::delmap_follows(
            self.image().first_logical(),
            self.image().next_logical(),
            self.image().next_delmap_physical(),
            self.delmap_mapping@,
        )
        &&& self.balance_ok()
    }

    /// The file is sound as far as the sector allocator is concerned: the page
    /// cache agrees with the file, the header gives a valid size, and the free list
    /// is a chain of distinct sectors.
    pub open(crate) spec fn store_wf(&self) -> bool {
        &&& self.tx.coherent(self.disk@)
        &&& self.image().sized()
        &&& self.image().free_chain(self.free_list())
    }
}

} // verus!
