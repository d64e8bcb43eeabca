use vstd::prelude::*;

verus! {

/// Type tag of a sector that sits on the free list.
pub const PAGE_TYPE_FREE: u64 = 0;

/// Type tag of a sector of the hash index.
pub const PAGE_TYPE_HT: u64 = 1;

/// Type tag of a sector of the value log.
pub const PAGE_TYPE_VALUES: u64 = 2;

/// Type tag of a sector of the deletion bitmap.
pub const PAGE_TYPE_DELMAP: u64 = 3;

/// Size of one page, the unit in which the file is read and written.
pub const PAGE_SIZE: u64 = 4096;

/// Size of one entry of the hash index.
pub const SLOT_SIZE: u64 = 32;

/// Size of one slot of the value log.
pub const VALUE_SIZE: u64 = 128;

/// Size of one entry of the deletion bitmap.
pub const DELMAP_ENTRY_SIZE: u64 = 32;

/// Number of value slots whose liveness one bitmap entry records.
pub const DELS_PER_DELMAP: u64 = 208;

/// Length of a truncated key hash.
pub const HASH_LEN: usize = 26;

/// Size of a sector, the unit of allocation.
pub const SECTOR_SIZE: u64 = 0x10_0000;

/// Offset, within a sector of the hash index or of the bitmap, of its first entry.
pub const FIRST_SLOT_OFFSET: u64 = 64;

/// Offset, within the file, of the first sector.
pub const FIRST_SECTOR_OFFSET: u64 = 4096;

/// Number of entries in one sector of the hash index.
pub const SLOTS_IN_SECTOR: u64 = 32766;

/// Number of value slots in one sector of the value log.
pub const VALUES_IN_SECTOR: u64 = 8191;

/// Number of bitmap entries in one sector of the deletion bitmap.
pub const DELMAPS_IN_SECTOR: u64 = 32766;

/// Logical bytes that one sector of the value log holds.
pub const VALUE_SPAN: u64 = 1048448;

/// Logical bytes of the value log whose liveness one bitmap entry records.
pub const ENTRY_SPAN: u64 = 26624;

/// Logical bytes of the value log whose liveness one sector of the bitmap records.
pub const DELMAP_SPAN: u64 = 872361984;

/// Occupancy, in percent, from which a sector may be split early.
pub const EARLY_SECTOR_PERCENT: u64 = 80;

/// Occupancy, in percent, at which a sector is split unconditionally.
pub const MAX_SECTOR_PERCENT: u64 = 90;

/// Header field: size of the file in bytes.
pub const FILE_SIZE_OFFSET: u64 = 0;

/// Header field: head of the list of free sectors, 0 when the list is empty.
pub const FREE_LIST_OFFSET: u64 = 8;

/// Header field: logical offset at which the next value slot is appended.
pub const NEXT_VALUE_LOGICAL_OFFSET: u64 = 16;

/// Header field: logical offset of the oldest value slot still in the log.
pub const FIRST_VALUE_LOGICAL_OFFSET: u64 = 24;

/// Header field: file offset at which the next value slot is written.
pub const NEXT_VALUE_PHYSICAL_OFFSET: u64 = 32;

/// Header field: file offset at which the next bitmap entry is written.
pub const NEXT_DELMAP_PHYSICAL_OFFSET: u64 = 48;

/// Sector header field: number of occupied entries (hash index only).
pub const SECTOR_OCCUPANCY_OFFSET: u64 = 32;

/// Sector header field: type tag.
pub const SECTOR_TYPE_OFFSET: u64 = 48;

/// Sector header field: next sector on the free list.
pub const SECTOR_NEXT_FREE_OFFSET: u64 = 56;

/// Value of an index entry that holds nothing.
pub const NO_VALUE: u64 = 0;

/// Exclusive bound of the values an index entry can hold (six bytes).
pub const VALUE_LIMIT: u64 = 0x1_0000_0000_0000;

/// Trailer that marks a complete write-ahead log.
pub const WAL_MAGIC: u64 = 718984182412;

/// Start of the page that holds `offset`.
pub open spec fn page_base(offset: u64) -> u64 {
    (offset - offset % PAGE_SIZE) as u64
}

/// Whether `len` bytes at `offset` lie within one page.
pub open spec fn within_page(offset: u64, len: nat) -> bool {
    offset % PAGE_SIZE + len <= PAGE_SIZE
}

/// Whether `offset` is the start of a sector.
pub open spec fn is_sector_base(offset: u64) -> bool {
    offset >= FIRST_SECTOR_OFFSET && (offset - FIRST_SECTOR_OFFSET) % (SECTOR_SIZE as int) == 0
}

/// Start of the sector that holds `offset`, for an offset past the file header.
pub open spec fn sector_base(offset: u64) -> u64
    recommends
        offset >= FIRST_SECTOR_OFFSET,
{
    (offset - (offset - FIRST_SECTOR_OFFSET) % (SECTOR_SIZE as int)) as u64
}

/// Computes the start of the page that holds `offset`.
pub fn page_start(offset: u64) -> (base: u64)
    ensures
        base == page_base(offset),
        base <= offset < base + PAGE_SIZE,
        base % PAGE_SIZE == 0,
{
    offset - offset % PAGE_SIZE
}

/// Computes the start of the sector that holds `offset`.
pub fn sector_start(offset: u64) -> (base: u64)
    requires
        offset >= FIRST_SECTOR_OFFSET,
    ensures
        base == sector_base(offset),
        is_sector_base(base),
        base <= offset < base + SECTOR_SIZE,
{
    offset - (offset - FIRST_SECTOR_OFFSET) % SECTOR_SIZE
}

} // verus!
