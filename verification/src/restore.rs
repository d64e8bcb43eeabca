use std::collections::BTreeMap;
use vstd::prelude::*;
use crate::codec::zeros;
use crate::engine::initial_disk;
use crate::engine::INITIAL_SIZE;
use crate::hashorder::entry_hash;
use crate::image::Image;
use crate::layout::FIRST_SECTOR_OFFSET;
use crate::layout::FIRST_SLOT_OFFSET;
use crate::layout::HASH_LEN;
use crate::layout::is_sector_base;
use crate::layout::PAGE_TYPE_DELMAP;
use crate::layout::PAGE_TYPE_HT;
use crate::layout::PAGE_TYPE_VALUES;
use crate::layout::SECTOR_SIZE;
use crate::layout::SECTOR_TYPE_OFFSET;
use crate::layout::SLOTS_IN_SECTOR;
use crate::layout::VALUE_SIZE;
use crate::logshape::delmap_follows;
use crate::logshape::values_follow;
use crate::split::enter;
use crate::split::entered;
use crate::split::lemma_entered_index;
use crate::table::HashTable;
use crate::transaction::flushable;
use crate::transaction::overlay;
use crate::transaction::TableTransaction;
use crate::wal::replay;

verus! {

impl Image {
    /// Whether the sector at `base` belongs to the value log and is keyed by `key`.
    pub open spec fn is_value_sector(self, base: u64, key: u64) -> bool {
        self.has_sector(base) && self.kind(base) == PAGE_TYPE_VALUES && self.num(base) == key
    }

    /// Whether the sector at `base` belongs to the bitmap and is keyed by `key`.
    pub open spec fn is_delmap_sector(self, base: u64, key: u64) -> bool {
        self.has_sector(base) && self.kind(base) == PAGE_TYPE_DELMAP && self.num(base) == key
    }

    /// Whether the sector at `base` is a sector of the index.
    pub open spec fn is_index_sector(self, base: u64) -> bool {
        self.has_sector(base) && self.kind(base) == PAGE_TYPE_HT
    }

    /// The directory of the value log as the sectors of the file give it.
    pub open spec fn values_directory(self) -> Map<u64, u64> {
        Map::new(
            |key: u64| exists|base: u64| self.is_value_sector(base, key),
            |key: u64| ((choose|base: u64| self.is_value_sector(base, key)) + VALUE_SIZE) as u64,
        )
    }

    /// The directory of the bitmap as the sectors of the file give it.
    pub open spec fn delmap_directory(self) -> Map<u64, u64> {
        Map::new(
            |key: u64| exists|base: u64| self.is_delmap_sector(base, key),
            |key: u64|
                ((choose|base: u64| self.is_delmap_sector(base, key)) + FIRST_SLOT_OFFSET) as u64,
        )
    }

    /// Whether `ht` is a directory of the index of this file: it is sound, and holds
    /// the key of every sector of the index.
    pub open spec fn lists_index(self, ht: Seq<([u8; 26], u64)>) -> bool {
        &&& self.index_ok(ht)
        &&& forall|base: u64|
            self.has_sector(base) && #[trigger] self.kind(base) == PAGE_TYPE_HT
                ==> crate::split::has_key(ht, self.read(base, HASH_LEN as nat))
    }

    /// Whether the sectors of this file can be read one by one: no write is
    /// pending, the header gives a valid size, and every sector has a known type,
    /// those of the index with the number of their entries in use.
    pub open spec fn scannable(self) -> bool {
        &&& self.changes == Map::<u64, Seq<u8>>::empty()
        &&& self.sized()
        &&& forall|base: u64|
            self.has_sector(base) ==> #[trigger] self.kind(base) <= 3 && (self.kind(base)
                == PAGE_TYPE_HT ==> self.occupancy(base) == self.occupied(
                base,
                SLOTS_IN_SECTOR as int,
            ))
    }

    /// Whether an engine can be opened on this file: no write is pending; the header
    /// gives a valid size; the first sector belongs to the index and is keyed by the
    /// zero hash; every sector has a known type, those of the index record the number
    /// of their entries in use, and no two sectors of the index, of the value log or
    /// of the bitmap have one key; the free list is a chain of distinct sectors marked free; the
    /// log is laid out as the keys of its sectors say; and the index is sound under
    /// its directory.
    pub open spec fn restorable(self) -> bool {
        &&& self.changes == Map::<u64, Seq<u8>>::empty()
        &&& forall|ht: Seq<([u8; 26], u64)>| #[trigger] self.lists_index(ht) ==> self.index_sound(ht)
        &&& self.sized()
        &&& self.kind(FIRST_SECTOR_OFFSET) == PAGE_TYPE_HT
        &&& self.read(FIRST_SECTOR_OFFSET, HASH_LEN as nat) == zeros(HASH_LEN as nat)
        &&& forall|base: u64|
            self.has_sector(base) ==> #[trigger] self.kind(base) <= 3 && (self.kind(base)
                == PAGE_TYPE_HT ==> self.occupancy(base) == self.occupied(
                base,
                SLOTS_IN_SECTOR as int,
            ))
        &&& forall|a: u64, b: u64|
            #![trigger self.is_index_sector(a), self.is_index_sector(b)]
            self.is_index_sector(a) && self.is_index_sector(b) && self.read(a, HASH_LEN as nat)
                == self.read(b, HASH_LEN as nat) ==> a == b
        &&& forall|a: u64, b: u64, key: u64|
            #![trigger self.is_value_sector(a, key), self.is_value_sector(b, key)]
            self.is_value_sector(a, key) && self.is_value_sector(b, key) ==> a == b
        &&& forall|a: u64, b: u64, key: u64|
            #![trigger self.is_delmap_sector(a, key), self.is_delmap_sector(b, key)]
            self.is_delmap_sector(a, key) && self.is_delmap_sector(b, key) ==> a == b
        &&& exists|chain: Seq<u64>| self.free_chain(chain) && self.free_kinds_ok(chain)
        &&& self.cursors_ok()
        &&& values_follow(
            self.first_logical(),
            self.next_logical(),
            self.next_value_physical(),
            self.values_directory(),
        )
        &&& delmap_follows(
            self.first_logical(),
            self.next_logical(),
            self.next_delmap_physical(),
            self.delmap_directory(),
        )
    }
}

impl Image {
    /// Whether the sectors of this file are of known types: the header gives a valid
    /// size, every sector has one of the four types, and the first belongs to the
    /// index.
    pub open spec fn typed(self) -> bool {
        &&& self.disk.len() >= 8
        &&& self.file_size() >= FIRST_SECTOR_OFFSET + SECTOR_SIZE
        &&& (self.file_size() - FIRST_SECTOR_OFFSET) % (SECTOR_SIZE as int) == 0
        &&& self.file_size() <= self.disk.len()
        &&& forall|base: u64| self.has_sector(base) ==> #[trigger] self.kind(base) <= 3
        &&& self.kind(FIRST_SECTOR_OFFSET) == PAGE_TYPE_HT
    }
}

/// Tells whether the sectors of the file with the bytes `disk` are of known types:
/// what can be told of a file, before an engine is opened on it, from its size and
/// the types of its sectors alone.
pub fn sectors_typed(disk: &Vec<u8>) -> (ok: bool)
    ensures
        ok == (Image { changes: Map::<u64, Seq<u8>>::empty(), disk: disk@ }).typed(),
{
    let ghost image = Image { changes: Map::<u64, Seq<u8>>::empty(), disk: disk@ };
    if disk.len() < 8 {
        return false;
    }
    let file_size = crate::codec::decode_num(disk, 0);
    if file_size < FIRST_SECTOR_OFFSET + SECTOR_SIZE || (file_size - FIRST_SECTOR_OFFSET)
        % SECTOR_SIZE != 0 {
        return false;
    }
    if file_size > disk.len() as u64 {
        return false;
    }
    let mut offset = FIRST_SECTOR_OFFSET;
    while offset < file_size
        invariant
            image == (Image { changes: Map::<u64, Seq<u8>>::empty(), disk: disk@ }),
            file_size == image.file_size(),
            file_size <= disk@.len(),
            disk@.len() <= usize::MAX,
            (file_size - FIRST_SECTOR_OFFSET) % (SECTOR_SIZE as int) == 0,
            is_sector_base(offset),
            offset <= file_size,
            forall|base: u64|
                image.has_sector(base) && base < offset ==> #[trigger] image.kind(base) <= 3,
        decreases file_size - offset,
    {
        proof {
            assert(image.has_sector(offset));
            crate::cursor::lemma_next_sector(offset);
        }
        let page_type = crate::codec::decode_num(disk, (offset + SECTOR_TYPE_OFFSET) as usize);
        proof {
            let at = (offset + SECTOR_TYPE_OFFSET) as u64;
            assert(!image.changes.contains_key(at));
            assert(image.read(at, 8) == disk@.subrange(at as int, at + 8));
            assert(image.num(at) == page_type);
            assert(image.kind(offset) == page_type);
        }
        if page_type > 3 {
            return false;
        }
        proof {
            assert forall|base: u64|
                image.has_sector(base) && base < offset + SECTOR_SIZE implies #[trigger] image.kind(
                base,
            ) <= 3 by {
                if base != offset {
                    assert(base < offset);
                }
            }
        }
        offset += SECTOR_SIZE;
    }
    let first_type = crate::codec::decode_num(
        disk,
        (FIRST_SECTOR_OFFSET + SECTOR_TYPE_OFFSET) as usize,
    );
    proof {
        let at = (FIRST_SECTOR_OFFSET + SECTOR_TYPE_OFFSET) as u64;
        assert(!image.changes.contains_key(at));
        assert(image.read(at, 8) == disk@.subrange(at as int, at + 8));
        assert(image.kind(FIRST_SECTOR_OFFSET) == first_type);
    }
    first_type == PAGE_TYPE_HT
}

/// The bytes of a write-ahead log, if one is given.
pub open spec fn log_bytes(wal: Option<Vec<u8>>) -> Option<Seq<u8>> {
    match wal {
        Some(log) => Some(log@),
        None => None,
    }
}

/// The bytes of the file on which the engine opens: those of an empty database where
/// the file is too short to hold one, and with the writes of the log applied where a
/// log is given that is complete and fits the file.
pub open spec fn restored_disk(disk: Seq<u8>, wal: Option<Seq<u8>>) -> Seq<u8> {
    let base = if disk.len() < INITIAL_SIZE {
        initial_disk()
    } else {
        disk
    };
    match wal {
        Some(log) => {
            let (changes, complete) = replay(log, Map::<u64, Seq<u8>>::empty());
            if complete && flushable(changes, base) {
                overlay(base, changes)
            } else {
                base
            }
        },
        None => base,
    }
}

/// The image on which the engine opens.
pub open spec fn restored(disk: Seq<u8>, wal: Option<Seq<u8>>) -> Image {
    Image { changes: Map::<u64, Seq<u8>>::empty(), disk: restored_disk(disk, wal) }
}

/// Brings the file up to date: makes an empty database where the file is too short to
/// hold one, and applies the writes of the log where one is given that is complete
/// and fits the file.
pub fn restore_disk(disk: Vec<u8>, wal: Option<Vec<u8>>) -> (ready: Vec<u8>)
    ensures
        ready@ == restored_disk(
            disk@,
            log_bytes(wal),
        ),
{
    let mut disk = disk;
    if disk.len() < INITIAL_SIZE as usize {
        disk = HashTable::initial_bytes();
    }
    match wal {
        Some(log) => {
            let mut tx = TableTransaction::new();
            if tx.maybe_replay_log(&log) {
                if tx.fits(disk.len()) {
                    let _ = tx.flush_changes(&mut disk);
                }
            }
        },
        None => {},
    }
    disk
}

/// An engine can be opened on an empty database.
#[verifier::spinoff_prover]
pub proof fn lemma_initial_restorable()
    ensures
        crate::engine::initial_image().restorable(),
{
    let image = crate::engine::initial_image();
    crate::engine::lemma_initial_reads();
    crate::engine::lemma_occupied_none(image, FIRST_SECTOR_OFFSET, SLOTS_IN_SECTOR as int);
    reveal(values_follow);
    reveal(delmap_follows);
    assert forall|base: u64| image.has_sector(base) implies base == FIRST_SECTOR_OFFSET by {}
    let chain = Seq::<u64>::empty();
    assert(image.free_chain(chain) && image.free_kinds_ok(chain));
    assert(image.values_directory() =~= Map::<u64, u64>::empty());
    assert(image.delmap_directory() =~= Map::<u64, u64>::empty());
    assert forall|ht: Seq<([u8; 26], u64)>| #[trigger] image.lists_index(ht) implies image.index_sound(
        ht,
    ) by {
        assert forall|i: int, j: int| 0 <= i < ht.len()
            && 0 <= j < SLOTS_IN_SECTOR implies #[trigger] image.slot(
            (#[trigger] ht[i]).1,
            j,
        ) == zeros(32) by {
            assert(image.index_sector_ok(ht[i].0@, ht[i].1));
        }
        crate::resize::lemma_empty_index(image, ht);
    }
}

/// An empty database is linked under any directory of its index, and nothing is
/// found in it.
pub proof fn lemma_initial_linked(
    ht: Seq<([u8; 26], u64)>,
    values: Map<u64, u64>,
    delmap: Map<u64, u64>,
)
    requires
        crate::engine::initial_image().lists_index(ht),
    ensures
        crate::engine::initial_image().linked_but(ht, values, delmap, Seq::<u64>::empty(), None),
        forall|hash: Seq<u8>|
            #[trigger] crate::engine::initial_image().fetch(ht, values, hash) is None,
{
    let image = crate::engine::initial_image();
    crate::engine::lemma_initial_reads();
    assert forall|base: u64| image.has_sector(base) implies base == FIRST_SECTOR_OFFSET by {}
    assert forall|i: int, j: int| 0 <= i < ht.len() && 0 <= j < SLOTS_IN_SECTOR implies #[trigger] image.slot(
        (#[trigger] ht[i]).1,
        j,
    ) == zeros(32) by {
        assert(image.index_sector_ok(ht[i].0@, ht[i].1));
    }
    crate::resize::lemma_empty_index(image, ht);
    crate::linked::lemma_linked_empty(image, ht, values, delmap);
}

/// Whether the directory of the value log holds what the sectors below `limit` give.
pub open spec fn values_scanned(image: Image, values: Map<u64, u64>, limit: u64) -> bool {
    &&& forall|key: u64| #[trigger]
        values.contains_key(key) ==> values[key] >= VALUE_SIZE && image.is_value_sector(
            (values[key] - VALUE_SIZE) as u64,
            key,
        ) && values[key] - VALUE_SIZE < limit
    &&& forall|base: u64, key: u64| #[trigger]
        image.is_value_sector(base, key) && base < limit ==> values.contains_key(key)
}

/// Whether the directory of the bitmap holds what the sectors below `limit` give.
pub open spec fn delmap_scanned(image: Image, delmap: Map<u64, u64>, limit: u64) -> bool {
    &&& forall|key: u64| #[trigger]
        delmap.contains_key(key) ==> delmap[key] >= FIRST_SLOT_OFFSET && image.is_delmap_sector(
            (delmap[key] - FIRST_SLOT_OFFSET) as u64,
            key,
        ) && delmap[key] - FIRST_SLOT_OFFSET < limit
    &&& forall|base: u64, key: u64| #[trigger]
        image.is_delmap_sector(base, key) && base < limit ==> delmap.contains_key(key)
}

/// Whether the directory of the index holds the keys of the index sectors below
/// `limit`.
pub open spec fn index_scanned(image: Image, ht: Seq<([u8; 26], u64)>, limit: u64) -> bool {
    &&& image.index_ok(ht)
    &&& forall|base: u64|
        image.has_sector(base) && base < limit && #[trigger] image.kind(base) == PAGE_TYPE_HT
            ==> crate::split::has_key(ht, image.read(base, HASH_LEN as nat))
}

/// The directories that a scan of all sectors gathers are those of the file.
#[verifier::spinoff_prover]
pub proof fn lemma_scan_complete(
    image: Image,
    ht: Seq<([u8; 26], u64)>,
    values: Map<u64, u64>,
    delmap: Map<u64, u64>,
)
    requires
        image.restorable(),
        index_scanned(image, ht, image.file_size()),
        values_scanned(image, values, image.file_size()),
        delmap_scanned(image, delmap, image.file_size()),
    ensures
        values == image.values_directory(),
        delmap == image.delmap_directory(),
        image.lists_index(ht),
        image.dirs_ok(values, delmap),
{
    assert forall|key: u64| values.contains_key(key) implies image.values_directory().contains_key(
        key,
    ) && values[key] == image.values_directory()[key] by {
        let base = (values[key] - VALUE_SIZE) as u64;
        assert(image.is_value_sector(base, key));
        let other = choose|other: u64| image.is_value_sector(other, key);
        assert(image.is_value_sector(other, key));
    }
    assert forall|key: u64| image.values_directory().contains_key(key) implies values.contains_key(
        key,
    ) by {
        let base = choose|base: u64| image.is_value_sector(base, key);
        assert(image.is_value_sector(base, key));
    }
    assert(values =~= image.values_directory());
    assert forall|key: u64| delmap.contains_key(key) implies image.delmap_directory().contains_key(
        key,
    ) && delmap[key] == image.delmap_directory()[key] by {
        let base = (delmap[key] - FIRST_SLOT_OFFSET) as u64;
        assert(image.is_delmap_sector(base, key));
        let other = choose|other: u64| image.is_delmap_sector(other, key);
        assert(image.is_delmap_sector(other, key));
    }
    assert forall|key: u64| image.delmap_directory().contains_key(key) implies delmap.contains_key(
        key,
    ) by {
        let base = choose|base: u64| image.is_delmap_sector(base, key);
        assert(image.is_delmap_sector(base, key));
    }
    assert(delmap =~= image.delmap_directory());
}

/// The directories that a scan gathers account for every sector of the file.
#[verifier::spinoff_prover]
pub proof fn lemma_scan_accounted(image: Image, ht: Seq<([u8; 26], u64)>)
    requires
        image.restorable(),
        image.lists_index(ht),
    ensures
        image.accounted(ht, image.values_directory(), image.delmap_directory()),
{
    reveal(Image::accounted_but);
    let values = image.values_directory();
    let delmap = image.delmap_directory();
    assert(image.index_sector_ok(ht[0].0@, ht[0].1));
    assert(image.has_sector(FIRST_SECTOR_OFFSET));
    assert(image.is_index_sector(ht[0].1) && image.is_index_sector(FIRST_SECTOR_OFFSET));
    assert forall|base: u64|
        #![trigger image.has_sector(base)]
        image.has_sector(base) && base != 0 implies image.sector_accounted(
        ht,
        values,
        delmap,
        base,
    ) by {
        assert(image.kind(base) <= 3);
        if image.kind(base) == PAGE_TYPE_HT {
            assert(crate::split::has_key(ht, image.read(base, HASH_LEN as nat)));
            let i = choose|i: int|
                0 <= i < ht.len() && (#[trigger] ht[i]).0@ == image.read(base, HASH_LEN as nat);
            assert(image.index_sector_ok(ht[i].0@, ht[i].1));
            assert(image.is_index_sector(ht[i].1) && image.is_index_sector(base));
            assert(crate::accounting::listed(ht, base));
        }
        if image.kind(base) == PAGE_TYPE_VALUES {
            let key = image.num(base);
            assert(image.is_value_sector(base, key));
            let other = choose|other: u64| image.is_value_sector(other, key);
            assert(image.is_value_sector(other, key));
        }
        if image.kind(base) == PAGE_TYPE_DELMAP {
            let key = image.num(base);
            assert(image.is_delmap_sector(base, key));
            let other = choose|other: u64| image.is_delmap_sector(other, key);
            assert(image.is_delmap_sector(other, key));
        }
    }
}

impl HashTable {
    /// Opens the engine on the bytes of a database file. A file too short to hold a
    /// database is taken for an empty one. Where a write-ahead log is given that is
    /// complete and fits the file, its writes are applied to the file first. The
    /// directories are gathered from the types and keys of the sectors.
    #[verifier::spinoff_prover]
    #[verifier::rlimit(50)]
    pub fn new(disk: Vec<u8>, salt: [u8; 32], wal: Option<Vec<u8>>) -> (table: HashTable)
        requires
            (disk@.len() < INITIAL_SIZE && wal is None) || restored(
                disk@,
                log_bytes(wal),
            ).restorable(),
        ensures
            table.wf(),
            table.rested(),
            table.image() == restored(
                disk@,
                log_bytes(wal),
            ),
            table.memory().salt == salt,
            table.memory().del_balance == 0,
            table.memory().writes_since_resize == 0,
            table.memory().values == table.image().values_directory(),
            table.memory().delmap == table.image().delmap_directory(),
            table.image().lists_index(table.memory().ht),
            table.image() == crate::engine::initial_image()
                ==> table.linked() && (forall|hash: Seq<u8>| #[trigger] table.stored(hash) is None),
    {
        let ghost image = restored(
            disk@,
            log_bytes(wal),
        );
        proof {
            lemma_initial_restorable();
        }
        let mut disk = restore_disk(disk, wal);
        let mut tx = TableTransaction::new();
        let file_size = tx.get_num(&mut disk, 0);
        let mut ht_mapping: Vec<([u8; 26], u64)> = Vec::new();
        ht_mapping.push(([0u8; 26], FIRST_SECTOR_OFFSET));
        let mut values_mapping: BTreeMap<u64, u64> = BTreeMap::new();
        let mut delmap_mapping: BTreeMap<u64, u64> = BTreeMap::new();
        let mut offset = FIRST_SECTOR_OFFSET;
        proof {
            assert(ht_mapping@[0].0@ =~= zeros(HASH_LEN as nat));
            assert(image.has_sector(FIRST_SECTOR_OFFSET));
            assert(image.index_sector_ok(zeros(26), FIRST_SECTOR_OFFSET));
        }
        while offset < file_size
            invariant
                image.scannable(),
                image.disk == disk@,
                file_size == image.file_size(),
                tx.changes() == Map::<u64, Seq<u8>>::empty(),
                tx.coherent(disk@),
                is_sector_base(offset),
                offset <= file_size,
                index_scanned(image, ht_mapping@, offset),
                values_scanned(image, values_mapping@, offset),
                delmap_scanned(image, delmap_mapping@, offset),
            decreases file_size - offset,
        {
            proof {
                assert(image.has_sector(offset));
                crate::cursor::lemma_next_sector(offset);
            }
            let page_type = tx.get_num(&mut disk, offset + SECTOR_TYPE_OFFSET);
            if page_type == PAGE_TYPE_HT {
                let data = tx.get(&mut disk, offset, 26);
                let key = entry_hash(&data);
                proof {
                    assert(data@.subrange(0, 26) =~= data@);
                    assert(image.kind(offset) == PAGE_TYPE_HT);
                    assert(image.read(offset, 26) == key@);
                    assert(image.occupancy(offset) == image.occupied(
                        offset,
                        SLOTS_IN_SECTOR as int,
                    ));
                    assert(image.index_sector_ok(key@, offset));
                    lemma_entered_index(image, ht_mapping@, key, offset);
                    let ghost before = ht_mapping@;
                    assert forall|base: u64|
                        image.has_sector(base) && base < offset + SECTOR_SIZE
                            && #[trigger] image.kind(base) == PAGE_TYPE_HT
                            implies crate::split::has_key(
                        entered(before, key, offset),
                        image.read(base, HASH_LEN as nat),
                    ) by {
                        if base != offset {
                            assert(base < offset);
                        }
                        crate::split::lemma_entered_covers(
                            before,
                            key,
                            offset,
                            image.read(base, HASH_LEN as nat),
                        );
                    }
                }
                enter(&mut ht_mapping, key, offset);
            } else if page_type == PAGE_TYPE_VALUES {
                let key = tx.get_num(&mut disk, offset);
                let ghost before = values_mapping@;
                values_mapping.insert(key, offset + VALUE_SIZE);
                proof {
                    assert(image.is_value_sector(offset, key));
                    assert forall|base: u64, other: u64| #[trigger]
                        image.is_value_sector(base, other) && base < offset
                            + SECTOR_SIZE implies values_mapping@.contains_key(other) by {
                        if base != offset {
                            assert(base < offset);
                            assert(before.contains_key(other));
                        }
                    }
                }
            } else if page_type == PAGE_TYPE_DELMAP {
                let key = tx.get_num(&mut disk, offset);
                let ghost before = delmap_mapping@;
                delmap_mapping.insert(key, offset + FIRST_SLOT_OFFSET);
                proof {
                    assert(image.is_delmap_sector(offset, key));
                    assert forall|base: u64, other: u64| #[trigger]
                        image.is_delmap_sector(base, other) && base < offset
                            + SECTOR_SIZE implies delmap_mapping@.contains_key(other) by {
                        if base != offset {
                            assert(base < offset);
                            assert(before.contains_key(other));
                        }
                    }
                }
            }
            proof {
                assert forall|key: u64, base: u64| #[trigger]
                    image.is_value_sector(base, key) && base < offset
                        + SECTOR_SIZE implies values_mapping@.contains_key(key) by {
                    if base != offset {
                        assert(base < offset);
                    }
                }
                assert forall|key: u64, base: u64| #[trigger]
                    image.is_delmap_sector(base, key) && base < offset
                        + SECTOR_SIZE implies delmap_mapping@.contains_key(key) by {
                    if base != offset {
                        assert(base < offset);
                    }
                }
                assert forall|base: u64|
                    image.has_sector(base) && base < offset + SECTOR_SIZE
                        && #[trigger] image.kind(base) == PAGE_TYPE_HT
                        implies crate::split::has_key(
                    ht_mapping@,
                    image.read(base, HASH_LEN as nat),
                ) by {
                    if base != offset {
                        assert(base < offset);
                    }
                }
            }
            offset += SECTOR_SIZE;
        }
        let ghost chain = choose|chain: Seq<u64>|
            image.free_chain(chain) && image.free_kinds_ok(chain);
        proof {
            lemma_scan_complete(image, ht_mapping@, values_mapping@, delmap_mapping@);
            crate::upkeep::lemma_steady_parts(
                image,
                chain,
                ht_mapping@,
                values_mapping@,
                delmap_mapping@,
            );
            assert(image.lists_index(ht_mapping@));
            lemma_scan_accounted(image, ht_mapping@);
        }
        let table = HashTable {
            salt,
            disk,
            tx,
            ht_mapping,
            values_mapping,
            delmap_mapping,
            writes_since_resize: 0,
            del_balance: 0,
            free_chain: Ghost(chain),
        };
        proof {
            if image == crate::engine::initial_image() {
                table.lemma_initial_table();
            }
        }
        table
    }

    /// An engine on an empty database is linked, and holds nothing.
    pub proof fn lemma_initial_table(&self)
        requires
            self.image() == crate::engine::initial_image(),
            self.image().lists_index(self.memory().ht),
        ensures
            self.linked(),
            forall|hash: Seq<u8>| #[trigger] self.stored(hash) is None,
    {
        reveal(HashTable::stored);
        reveal(HashTable::linked_but);
        lemma_initial_linked(self.memory().ht, self.memory().values, self.memory().delmap);
        assert(self.image().linked_but(
            self.memory().ht,
            self.memory().values,
            self.memory().delmap,
            Seq::<u64>::empty(),
            None,
        ));
    }
}

} // verus!
