use fast_kv_store::table::HashTable;
use rand::seq::SliceRandom;
use rand::Rng;
use std::collections::HashMap;
use std::time::Instant;

#[test]
fn test_fuzzy_db_ht_consistency() {
    // During half inserts, half gets the resize happens around 29K.
    // In the non-fuzzy mode we do 35K inserts, then do 10K more iterations
    // with deletes.
    const NUM_ITERS: usize = 45000;

    const REWRITES_START: usize = 20000;
    const DELETES_START: usize = 35000;
    const COMMIT_EVERY: usize = 2501;

    let salt = rand::thread_rng().gen::<[u8; 32]>();
    let mut db = HashTable::new(Vec::new(), salt, None);

    let mut map: HashMap<Vec<u8>, u64> = HashMap::new();
    let mut all_keys = vec![];

    let mut started = Instant::now();
    let mut inserts: usize = 0;
    let mut deletes: usize = 0;
    let mut reads: usize = 0;

    let mut odd: usize = 0;

    for iter in 0..NUM_ITERS {
        let want_delete =
            iter > DELETES_START && rand::thread_rng().gen() && rand::thread_rng().gen();

        let key = if iter > REWRITES_START && all_keys.len() > 0 && want_delete {
            all_keys.choose(&mut rand::thread_rng()).cloned().unwrap()
        } else {
            let v = rand::thread_rng().gen::<[u8; 32]>().to_vec();
            all_keys.push(v.clone());
            v
        };
        let value = rand::thread_rng().gen_range(1..1u64 << 48);

        let adjusted_key = [vec![32], key.clone()].concat();

        if odd <= 1 {
            assert_eq!(db.ht_get(adjusted_key.clone()), map.get(&key).cloned());
        }
        if odd != 0 {
            if want_delete {
                map.remove(&key);
                db.ht_delete(adjusted_key.clone());
                deletes += 1;
            } else {
                map.insert(key.clone(), value.clone());
                db.ht_set(adjusted_key.clone(), value);
                inserts += 1;
            }
        }
        if odd <= 1 {
            assert_eq!(db.ht_get(adjusted_key.clone()), map.get(&key).cloned());
            reads += 1;
        }

        if (iter + 1) % COMMIT_EVERY == 0 {
            db.flush_changes();
        }

        if (iter + 1) % 1000000 == 0 {
            println!(
                "{} reads, {} writes and {} deletes in {}",
                reads,
                inserts,
                deletes,
                started.elapsed().as_millis()
            );
            started = Instant::now();
            reads = 0;
            inserts = 0;
            deletes = 0;
            odd = (odd + 1) % 5;
        }
    }

    println!(
        "{} reads, {} writes and {} deletes in {}",
        reads,
        inserts,
        deletes,
        started.elapsed().as_millis()
    );
}

#[test]
fn index_splits_and_keeps_every_key() {
    let mut db = HashTable::new(Vec::new(), [7u8; 32], None);
    let count: u64 = 40000;
    for i in 0..count {
        db.ht_set(i.to_le_bytes().to_vec(), i + 1);
    }
    for i in 0..count {
        assert_eq!(db.ht_get(i.to_le_bytes().to_vec()), Some(i + 1));
    }
    for i in (0..count).step_by(3) {
        db.ht_delete(i.to_le_bytes().to_vec());
    }
    db.flush_changes();
    for i in 0..count {
        let expected = if i % 3 == 0 { None } else { Some(i + 1) };
        assert_eq!(db.ht_get(i.to_le_bytes().to_vec()), expected);
    }
}

#[test]
fn test_fuzzy_storage_consistency() {
    const NUM_ITERS: usize = 5000;

    const REWRITES_START: usize = 5000;
    const COMMIT_EVERY: usize = 2501;
    // Must be a multiple of `COMMIT_EVERY`
    const RECREATE_EVERY: usize = COMMIT_EVERY * 212;

    let salt = rand::thread_rng().gen::<[u8; 32]>();
    let mut db = HashTable::new(Vec::new(), salt, None);

    let mut map: HashMap<Vec<u8>, Vec<u8>> = HashMap::new();
    let mut all_keys = vec![];

    let mut started = Instant::now();
    let mut inserts: usize = 0;
    let mut deletes: usize = 0;
    let mut reads: usize = 0;

    let mut odd: u32 = 0;
    for iter in 0..NUM_ITERS {
        let want_delete = odd != 3
            && (odd == 4 || rand::thread_rng().gen() && (odd == 5 || rand::thread_rng().gen()));

        let read_iter = odd <= 1 || odd >= 8;
        let key = if all_keys.len() > 0
            && (iter > REWRITES_START && rand::thread_rng().gen() && rand::thread_rng().gen()
                || want_delete
                || read_iter)
        {
            all_keys.choose(&mut rand::thread_rng()).cloned().unwrap()
        } else {
            let mut v = vec![];
            for _ in 0..rand::thread_rng().gen_range(6..8) {
                v.push(rand::thread_rng().gen());
            }
            all_keys.push(v.clone());
            v
        };

        let mut value = vec![];
        for _ in 0..rand::thread_rng().gen_range(0..1025) {
            value.push(rand::thread_rng().gen());
        }

        if odd != 0 {
            if want_delete {
                map.remove(&key);
                db.delete(key.clone());
                deletes += 1;
            } else {
                map.insert(key.clone(), value.clone());
                db.set(key.clone(), value);
                inserts += 1;
            }
        }
        if read_iter {
            assert_eq!(db.get(key.clone()), map.get(&key).cloned());
            reads += 1;
        }

        if (iter + 1) % RECREATE_EVERY == 0 {
            println!("WRITING TO WAL ...");
            let wal = db.write_to_log();
            println!("RECREATING ...");
            db = HashTable::new(db.disk().clone(), salt, Some(wal));
            println!("DONE");
        } else if (iter + 1) % COMMIT_EVERY == 0 {
            db.flush_changes();
        }

        if (iter + 1) % 100000 == 0 {
            println!(
                "{} reads, {} writes and {} deletes in {}ms",
                reads,
                inserts,
                deletes,
                started.elapsed().as_millis(),
            );
            //db.print_stats();
            db.reset_del_balance();
            started = Instant::now();
            reads = 0;
            inserts = 0;
            deletes = 0;
            odd = (odd + 1) % 10;
        }
    }

    println!(
        "{} reads, {} writes and {} deletes in {}ms",
        reads,
        inserts,
        deletes,
        started.elapsed().as_millis()
    );
}

#[test]
fn churn_with_reopening_from_the_log_keeps_every_value() {
    let salt = [3u8; 32];
    let mut db = HashTable::new(Vec::new(), salt, None);
    let mut map: HashMap<Vec<u8>, Vec<u8>> = HashMap::new();
    let mut rng = rand::thread_rng();
    for iter in 0..6000usize {
        let key = vec![rng.gen_range(0..200u8), rng.gen_range(0..4u8)];
        if rng.gen_range(0..4) == 0 {
            map.remove(&key);
            db.delete(key.clone());
        } else {
            let mut value = vec![];
            for _ in 0..rng.gen_range(0..700) {
                value.push(rng.gen());
            }
            map.insert(key.clone(), value.clone());
            db.set(key.clone(), value);
        }
        assert_eq!(db.get(key.clone()), map.get(&key).cloned());
        if (iter + 1) % 1500 == 0 {
            let wal = db.write_to_log();
            db = HashTable::new(db.disk().clone(), salt, Some(wal));
            for (key, value) in map.iter() {
                assert_eq!(db.get(key.clone()), Some(value.clone()));
            }
        } else if (iter + 1) % 700 == 0 {
            db.flush_changes();
        }
    }
    for (key, value) in map.iter() {
        assert_eq!(db.get(key.clone()), Some(value.clone()));
    }
}
