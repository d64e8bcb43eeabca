use vstd::prelude::*;
use crate::codec::num_bytes;
use crate::codec::num_of;
use crate::layout::FILE_SIZE_OFFSET;
use crate::layout::FIRST_SECTOR_OFFSET;
use crate::layout::FIRST_VALUE_LOGICAL_OFFSET;
use crate::layout::FREE_LIST_OFFSET;
use crate::layout::is_sector_base;
use crate::layout::NEXT_DELMAP_PHYSICAL_OFFSET;
use crate::layout::NEXT_VALUE_LOGICAL_OFFSET;
use crate::layout::NEXT_VALUE_PHYSICAL_OFFSET;
use crate::layout::SECTOR_NEXT_FREE_OFFSET;
use crate::layout::SECTOR_SIZE;
use crate::layout::SECTOR_TYPE_OFFSET;
use crate::transaction::Changes;
use crate::transaction::read_at;
use crate::transaction::readable;

verus! {

/// The database as the engine sees it: the bytes of the file and, on top of them, the
/// writes of the current transaction.
pub struct Image {
    pub changes: Changes,
    pub disk: Seq<u8>,
}

impl Image {
    /// What a read of `len` bytes at `offset` returns.
    pub open spec fn read(self, offset: u64, len: nat) -> Seq<u8> {
        read_at(self.changes, self.disk, offset, len)
    }

    /// The number that a read of eight bytes at `offset` returns.
    pub open spec fn num(self, offset: u64) -> u64 {
        num_of(self.read(offset, 8))
    }

    /// Whether `len` bytes can be read at `offset`.
    pub open spec fn readable(self, offset: u64, len: nat) -> bool {
        readable(self.changes, self.disk, offset, len)
    }

    /// Whether `len` bytes can be written at `offset`: an earlier write there, if
    /// any, has the same length.
    pub open spec fn writable(self, offset: u64, len: nat) -> bool {
        self.changes.contains_key(offset) ==> self.changes[offset].len() == len
    }

    /// The image after a write of `data` at `offset`.
    pub open spec fn put(self, offset: u64, data: Seq<u8>) -> Image {
        Image { changes: self.changes.insert(offset, data), disk: self.disk }
    }

    /// The image after a write of the number `x` at `offset`.
    pub open spec fn put_num(self, offset: u64, x: u64) -> Image {
        self.put(offset, num_bytes(x))
    }

    /// Size of the file as the header records it.
    pub open spec fn file_size(self) -> u64 {
        self.num(FILE_SIZE_OFFSET)
    }

    /// Head of the list of free sectors, 0 when the list is empty.
    pub open spec fn free_head(self) -> u64 {
        self.num(FREE_LIST_OFFSET)
    }

    /// Logical offset at which the next value slot is appended.
    pub open spec fn next_logical(self) -> u64 {
        self.num(NEXT_VALUE_LOGICAL_OFFSET)
    }

    /// Logical offset of the oldest value slot still in the log.
    pub open spec fn first_logical(self) -> u64 {
        self.num(FIRST_VALUE_LOGICAL_OFFSET)
    }

    /// File offset at which the next value slot is written.
    pub open spec fn next_value_physical(self) -> u64 {
        self.num(NEXT_VALUE_PHYSICAL_OFFSET)
    }

    /// File offset at which the next bitmap entry is written.
    pub open spec fn next_delmap_physical(self) -> u64 {
        self.num(NEXT_DELMAP_PHYSICAL_OFFSET)
    }

    /// Whether `base` is the start of a sector of the file.
    pub open spec fn has_sector(self, base: u64) -> bool {
        is_sector_base(base) && base + SECTOR_SIZE <= self.file_size()
    }

    /// Type tag of the sector at `base`.
    pub open spec fn kind(self, base: u64) -> u64 {
        self.num((base + SECTOR_TYPE_OFFSET) as u64)
    }

    /// The sector that follows the sector at `base` on the free list.
    pub open spec fn next_free(self, base: u64) -> u64 {
        self.num((base + SECTOR_NEXT_FREE_OFFSET) as u64)
    }

    /// The file has room for its header and at least one sector, ends on a sector
    /// boundary, and holds as many bytes as its header says.
    pub open spec fn sized(self) -> bool {
        &&& self.file_size() >= FIRST_SECTOR_OFFSET + SECTOR_SIZE
        &&& (self.file_size() - FIRST_SECTOR_OFFSET) % (SECTOR_SIZE as int) == 0
        &&& self.file_size() <= self.disk.len()
        &&& self.writable(FILE_SIZE_OFFSET, 8)
        &&& self.writable(FREE_LIST_OFFSET, 8)
    }

    /// Whether `chain` lists the free sectors in the order of the free list: the
    /// header points to the first, each points to the next, the last to nothing, and
    /// none occurs twice.
    pub open spec fn free_chain(self, chain: Seq<u64>) -> bool {
        &&& self.free_head() == if chain.len() > 0 {
            chain[0]
        } else {
            0
        }
        &&& forall|i: int|
            0 <= i < chain.len() ==> {
                &&& self.has_sector(#[trigger] chain[i])
                &&& self.writable((chain[i] + SECTOR_TYPE_OFFSET) as u64, 8)
                &&& self.writable((chain[i] + SECTOR_NEXT_FREE_OFFSET) as u64, 8)
                &&& self.next_free(chain[i]) == if i + 1 < chain.len() {
                    chain[i + 1]
                } else {
                    0
                }
            }
        &&& chain.no_duplicates()
    }
}

} // verus!
