use fast_kv_store::codec::{extract_value, get_slot, make_entry};
use fast_kv_store::digest::get_hash;
use fast_kv_store::record::{frame_record, record_hash, record_length};
use fast_kv_store::restore::restore_disk;
use fast_kv_store::table::HashTable;
use fast_kv_store::transaction::TableTransaction;
use rand::Rng;

const SECTOR_SIZE: usize = 1 << 20;
const FIRST_SECTOR_OFFSET: usize = 4096;

#[test]
fn rewrites_advance_the_log_by_two_slots() {
    let mut db = HashTable::new(Vec::new(), [5u8; 32], None);
    for i in 0..128u64 {
        db.set(i.to_le_bytes().to_vec(), (i * 3).to_le_bytes().to_vec());
    }
    let (first, next) = db.stats();
    assert_eq!(first, 0);
    assert_eq!(next, 128 * 128);
    for i in 0..128u64 {
        assert_eq!(db.get(i.to_le_bytes().to_vec()), Some((i * 3).to_le_bytes().to_vec()));
    }
    for i in 0..128u64 {
        let (_, before) = db.stats();
        let payload = vec![(i % 251) as u8; 140];
        db.set(i.to_le_bytes().to_vec(), payload.clone());
        let (_, after) = db.stats();
        assert_eq!(after, before + 2 * 128);
        assert_eq!(db.get(i.to_le_bytes().to_vec()), Some(payload));
    }
    for i in 0..128u64 {
        assert_eq!(db.get(i.to_le_bytes().to_vec()), Some(vec![(i % 251) as u8; 140]));
    }
}

#[test]
fn crash_in_the_middle_of_a_flush_is_healed_by_the_log() {
    let salt = [9u8; 32];
    let mut db = HashTable::new(Vec::new(), salt, None);
    for i in 0..300u64 {
        db.set(i.to_le_bytes().to_vec(), vec![(i % 200) as u8; (i % 300) as usize]);
    }
    db.flush_changes();
    for i in 0..300u64 {
        if i % 2 == 0 {
            db.set(i.to_le_bytes().to_vec(), vec![7u8; (i % 90) as usize]);
        } else if i % 5 == 0 {
            db.delete(i.to_le_bytes().to_vec());
        }
    }
    let wal = db.write_to_log();
    let before = db.disk().clone();
    db.flush_changes();
    let flushed = db.disk().clone();
    assert_eq!(flushed.len(), before.len());
    // A crash leaves any bytes where the flush would have written.
    let mut crashed = before.clone();
    let mut rng = rand::thread_rng();
    let mut replay = TableTransaction::new();
    assert!(replay.maybe_replay_log(&wal));
    let mut probe = vec![0u8; before.len()];
    let mut marker = vec![0xa5u8; before.len()];
    let _ = replay.flush_changes(&mut probe);
    let mut again = TableTransaction::new();
    assert!(again.maybe_replay_log(&wal));
    let _ = again.flush_changes(&mut marker);
    for at in 0..crashed.len() {
        if probe[at] == marker[at] {
            // both files got this byte from the log: the flush writes here
            crashed[at] = rng.gen();
        }
    }
    assert_eq!(restore_disk(crashed.clone(), Some(wal.clone())), flushed);
    let mut reopened = HashTable::new(crashed, salt, Some(wal));
    for i in 0..300u64 {
        assert_eq!(reopened.get(i.to_le_bytes().to_vec()), db.get(i.to_le_bytes().to_vec()));
    }
}

#[test]
fn hash_is_the_truncated_digest_of_salt_and_key() {
    let salt = [1u8; 32];
    let key = vec![1u8, 2, 3, 4];
    let mut input = salt.to_vec();
    input.extend_from_slice(&key);
    let digest = blake3::hash(&input);
    let hash = get_hash(&salt, &key);
    assert_eq!(&hash[..], &digest.as_bytes()[..26]);
    assert_ne!(&hash[..], &input[..26]);
    assert_ne!(get_hash(&[2u8; 32], &key), hash);
}

#[test]
fn record_holds_hash_length_value_and_padding() {
    let hash = [3u8; 26];
    let record = frame_record(&hash, &vec![5, 6, 7, 8]);
    assert_eq!(record.len(), 128);
    assert_eq!(&record[..26], &hash[..]);
    assert_eq!(&record[26..34], &38u64.to_le_bytes());
    assert_eq!(&record[34..38], &[5, 6, 7, 8]);
    assert!(record[38..].iter().all(|b| *b == 0));
    let mut first = [0u8; 128];
    first.copy_from_slice(&record[..128]);
    assert_eq!(record_length(&first), 38);
    assert_eq!(record_hash(&first), hash);
    assert_eq!(frame_record(&hash, &vec![]).len(), 128);
    assert_eq!(frame_record(&hash, &vec![1u8; 94]).len(), 128);
    assert_eq!(frame_record(&hash, &vec![1u8; 95]).len(), 256);
}

#[test]
fn index_entry_holds_hash_and_six_bytes_of_value() {
    let mut hash = [0u8; 26];
    for (i, byte) in hash.iter_mut().enumerate() {
        *byte = i as u8;
    }
    let entry = make_entry(&hash, 0x0000_0605_0403_0201);
    assert_eq!(entry.len(), 32);
    assert_eq!(&entry[..26], &hash[..]);
    assert_eq!(&entry[26..], &[1, 2, 3, 4, 5, 6]);
    assert_eq!(extract_value(&entry), 0x0000_0605_0403_0201);
    let tail = u64::from_le_bytes([18, 19, 20, 21, 22, 23, 24, 25]);
    assert_eq!(get_slot(&hash), tail % 32766);
}

#[test]
fn split_keys_the_new_sector_by_the_median_hash() {
    let mut db = HashTable::new(Vec::new(), [0u8; 32], None);
    let mut rng = rand::thread_rng();
    let mut hashes: Vec<[u8; 26]> = Vec::new();
    let size_before = db.disk().len();
    assert_eq!(size_before, FIRST_SECTOR_OFFSET + SECTOR_SIZE);
    // The sector is split early once it is four fifths full.
    for i in 0..26212u64 {
        let hash: [u8; 26] = rng.gen();
        assert_eq!(db.ht_set_with_hash(hash, i + 1), None);
        hashes.push(hash);
        if i < 26211 {
            db.flush_changes();
            assert_eq!(db.disk().len(), size_before);
        }
    }
    db.flush_changes();
    assert_eq!(db.disk().len(), size_before + SECTOR_SIZE);
    let mut sorted = hashes.clone();
    sorted.sort();
    let median = sorted[sorted.len() / 2];
    let base = FIRST_SECTOR_OFFSET + SECTOR_SIZE;
    assert_eq!(&db.disk()[base..base + 26], &median[..]);
    let lower = u64::from_le_bytes(db.disk()[4096 + 32..4096 + 40].try_into().unwrap());
    let upper = u64::from_le_bytes(db.disk()[base + 32..base + 40].try_into().unwrap());
    assert_eq!(lower, 13106);
    assert_eq!(upper, 13106);
    for (i, hash) in hashes.iter().enumerate() {
        assert_eq!(db.seek(*hash).1, i as u64 + 1);
    }
}

#[test]
fn log_that_does_not_fit_the_file_is_ignored() {
    let db = HashTable::new(Vec::new(), [0u8; 32], None);
    let disk = db.disk().clone();
    let mut tx = TableTransaction::new();
    tx.set(disk.len() as u64 + 4096, vec![1u8; 8]);
    let wal = tx.write_to_log();
    assert_eq!(restore_disk(disk.clone(), Some(wal)), disk);
    let mut torn = TableTransaction::new();
    torn.set(16, vec![1u8; 8]);
    let mut wal = torn.write_to_log();
    wal.pop();
    assert_eq!(restore_disk(disk.clone(), Some(wal)), disk);
    assert_eq!(restore_disk(vec![1, 2, 3], None), HashTable::initial_bytes());
}

#[test]
fn missing_key_reads_none_and_deleting_it_changes_nothing() {
    let mut db = HashTable::new(Vec::new(), [4u8; 32], None);
    db.set(vec![1], vec![2; 300]);
    let wal = db.write_to_log();
    let stats = db.stats();
    assert_eq!(db.get(vec![2]), None);
    db.delete(vec![2]);
    assert_eq!(db.write_to_log(), wal);
    assert_eq!(db.stats(), stats);
    assert_eq!(db.get(vec![1]), Some(vec![2; 300]));
}

#[test]
fn empty_and_long_values_read_back() {
    let mut db = HashTable::new(Vec::new(), [4u8; 32], None);
    db.set(vec![1], vec![]);
    assert_eq!(db.get(vec![1]), Some(vec![]));
    let long: Vec<u8> = (0..100_000u32).map(|i| (i % 253) as u8).collect();
    db.set(vec![], long.clone());
    assert_eq!(db.get(vec![]), Some(long.clone()));
    db.set(vec![1], long.clone());
    assert_eq!(db.get(vec![1]), Some(long));
    db.delete(vec![1]);
    assert_eq!(db.get(vec![1]), None);
    assert_eq!(db.get(vec![]).map(|v| v.len()), Some(100_000));
}

#[test]
fn index_returns_the_value_filed_last() {
    let mut db = HashTable::create([8u8; 32]);
    assert_eq!(db.ht_get(vec![1]), None);
    db.ht_set(vec![1], 10);
    db.ht_set(vec![2], 20);
    assert_eq!(db.ht_get(vec![1]), Some(10));
    db.ht_set(vec![1], 11);
    assert_eq!(db.ht_get(vec![1]), Some(11));
    assert_eq!(db.ht_get(vec![2]), Some(20));
    db.ht_delete(vec![1]);
    assert_eq!(db.ht_get(vec![1]), None);
    assert_eq!(db.ht_get(vec![2]), Some(20));
    db.ht_delete(vec![1]);
    assert_eq!(db.ht_get(vec![2]), Some(20));
}

#[test]
fn reopening_a_flushed_file_keeps_every_value() {
    let salt = [6u8; 32];
    let mut db = HashTable::new(Vec::new(), salt, None);
    for round in 0..3u64 {
        for i in 0..400u64 {
            let value = vec![(i + round) as u8; ((i * 7 + round * 13) % 500) as usize];
            db.set(i.to_le_bytes().to_vec(), value);
            if i % 7 == round {
                db.delete((i / 2).to_le_bytes().to_vec());
            }
        }
        db.flush_changes();
        let mut reopened = HashTable::new(db.disk().clone(), salt, None);
        assert_eq!(reopened.stats(), db.stats());
        for i in 0..400u64 {
            let key = i.to_le_bytes().to_vec();
            assert_eq!(reopened.get(key.clone()), db.get(key));
        }
        db = reopened;
    }
}

#[test]
fn deletion_pays_for_four_moves() {
    let mut db = HashTable::new(Vec::new(), [11u8; 32], None);
    db.set(vec![1], vec![10]);
    db.set(vec![2], vec![20]);
    db.set(vec![3], vec![30]);
    db.reset_del_balance();
    assert_eq!(db.stats(), (0, 384));
    db.delete(vec![2]);
    assert_eq!(db.stats(), (512, 768));
    assert_eq!(db.get(vec![2]), None);
    assert_eq!(db.get(vec![1]), Some(vec![10]));
    assert_eq!(db.get(vec![3]), Some(vec![30]));
    assert_eq!(db.ht_get(vec![3]), Some(513));
    assert_eq!(db.ht_get(vec![1]), Some(641));
}

#[test]
fn last_record_is_not_moved() {
    let mut db = HashTable::new(Vec::new(), [12u8; 32], None);
    db.set(vec![1], vec![10]);
    db.set(vec![2], vec![20]);
    db.reset_del_balance();
    db.delete(vec![1]);
    assert_eq!(db.stats(), (128, 256));
    assert_eq!(db.get(vec![2]), Some(vec![20]));
    assert_eq!(db.ht_get(vec![2]), Some(129));
    assert_eq!(db.get(vec![1]), None);
}

#[test]
fn append_behind_a_full_sector_opens_the_next() {
    let mut db = HashTable::new(Vec::new(), [13u8; 32], None);
    for i in 0..8191u64 {
        assert_eq!(db.write_value([(i % 250) as u8; 128]), i * 128);
    }
    db.flush_changes();
    assert_eq!(db.disk().len(), 4096 + 3 * SECTOR_SIZE);
    assert_eq!(db.write_value([191u8; 128]), 1048448);
    assert_eq!(db.get_value(1048448), [191u8; 128]);
    assert_eq!(db.get_value(1048320), [190u8; 128]);
    assert_eq!(db.get_value(0), [0u8; 128]);
    db.flush_changes();
    let size = u64::from_le_bytes(db.disk()[0..8].try_into().unwrap());
    assert_eq!(size, 4096 + 4 * 1048576);
    // the slot stands behind the header of the new sector,
    // and the write position behind the slot
    let sector = 4096 + 3 * SECTOR_SIZE;
    assert_eq!(&db.disk()[sector + 128..sector + 256], &[191u8; 128][..]);
    let place = u64::from_le_bytes(db.disk()[32..40].try_into().unwrap());
    assert_eq!(place, sector as u64 + 256);
    assert_eq!(&db.disk()[sector..sector + 8], &1048448u64.to_le_bytes());
    assert_eq!(&db.disk()[sector + 48..sector + 56], &2u64.to_le_bytes());
}

#[test]
fn file_with_an_unknown_sector_type_is_told_apart() {
    let db = HashTable::new(Vec::new(), [14u8; 32], None);
    let disk = db.disk().clone();
    assert!(fast_kv_store::restore::sectors_typed(&disk));
    let mut damaged = disk.clone();
    damaged[4096 + 48] = 7;
    assert!(!fast_kv_store::restore::sectors_typed(&damaged));
    let mut cut = disk.clone();
    cut.truncate(5000);
    assert!(!fast_kv_store::restore::sectors_typed(&cut));
    assert!(!fast_kv_store::restore::sectors_typed(&vec![1, 2, 3]));
}

#[test]
fn room_is_left_for_short_values() {
    let mut db = HashTable::new(Vec::new(), [15u8; 32], None);
    assert!(db.has_room(0));
    assert!(db.has_room(1 << 20));
    assert!(!db.has_room(1 << 48));
}
