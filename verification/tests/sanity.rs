use fast_kv_store::table::HashTable;
use rand::Rng;

const VALUE_SIZE: u64 = 128;
const SECTOR_SIZE: u64 = 1 << 20;
const FIRST_SECTOR_OFFSET: u64 = 4096;

#[test]
fn test_sanity_db_free_list() {
    let mut db = HashTable::new(Vec::new(), rand::thread_rng().gen::<[u8; 32]>(), None);

    for i in 0..4 {
        assert_eq!(
            db.allocate_sector(vec![vec![0u8; VALUE_SIZE as usize]], VALUE_SIZE, VALUE_SIZE),
            (1 + i) * SECTOR_SIZE + FIRST_SECTOR_OFFSET
        );
    }

    for i in 0..4 {
        db.free_sector(2 * SECTOR_SIZE + FIRST_SECTOR_OFFSET);
        db.free_sector(4 * SECTOR_SIZE + FIRST_SECTOR_OFFSET);

        assert_eq!(
            db.allocate_sector(vec![vec![0u8; VALUE_SIZE as usize]], VALUE_SIZE, VALUE_SIZE),
            4 * SECTOR_SIZE + FIRST_SECTOR_OFFSET
        );

        assert_eq!(
            db.allocate_sector(vec![vec![0u8; VALUE_SIZE as usize]], VALUE_SIZE, VALUE_SIZE),
            2 * SECTOR_SIZE + FIRST_SECTOR_OFFSET
        );

        assert_eq!(
            db.allocate_sector(vec![vec![0u8; VALUE_SIZE as usize]], VALUE_SIZE, VALUE_SIZE),
            (5 + i) * SECTOR_SIZE + FIRST_SECTOR_OFFSET
        );
    }
}

#[test]
fn test_sanity_db_values() {
    const ITERS: usize = 20000;

    let mut db = HashTable::new(Vec::new(), rand::thread_rng().gen::<[u8; 32]>(), None);

    let mut byte: u8 = 17;
    let mut first_offset = db.write_value([byte; 128]);
    let mut next_offset = first_offset + 128;
    let mut next_del_offset = first_offset;
    let mut next_del_byte = byte;

    for iter in 0..(ITERS * 3) {
        byte = (byte + 1) % 250;

        assert_eq!(db.write_value([byte; 128]), next_offset);
        next_offset += 128;

        if iter >= ITERS {
            assert_eq!(db.get_value(next_del_offset), [next_del_byte; 128]);
            next_del_byte = (next_del_byte + 1) % 250;

            if (next_del_offset / 128) % 2 == 1 {
                db.delete_value(next_del_offset);
            }
            next_del_offset += 128;
        }

        if iter >= ITERS * 2 {
            let maybe_offsets = db.move_one_value();
            if (first_offset / 128) % 2 == 0 {
                assert_eq!(maybe_offsets, Some((first_offset, next_offset)));
                next_offset += 128;
            } else {
                assert_eq!(maybe_offsets, None);
            }

            first_offset += 128;
        }
    }
}

#[test]
fn test_sanity_db_get_set() {
    let mut db = HashTable::new(Vec::new(), rand::thread_rng().gen::<[u8; 32]>(), None);

    db.set(vec![1, 2, 3, 4], vec![5, 6, 7, 8]);
    assert_eq!(db.get(vec![1, 2, 3, 4]), Some(vec![5, 6, 7, 8]));
    assert_eq!(db.get(vec![1, 2, 3, 5]), None);
}
