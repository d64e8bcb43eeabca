use fast_kv_store::transaction::TableTransaction;

#[test]
fn set_then_get_returns_pending_bytes() {
    let mut disk = vec![0u8; 8192];
    let mut tx = TableTransaction::new();
    tx.set(16, vec![1, 2, 3, 4, 5, 6, 7, 8]);
    assert_eq!(tx.get(&mut disk, 16, 8), vec![1, 2, 3, 4, 5, 6, 7, 8]);
    assert_eq!(tx.get_num(&mut disk, 16), 0x0807060504030201);
    assert_eq!(tx.get(&mut disk, 24, 8), vec![0u8; 8]);
}

#[test]
fn flush_applies_writes_in_ascending_order() {
    let mut disk = vec![0u8; 3 * 4096];
    let mut tx = TableTransaction::new();
    tx.set(4096 + 10, vec![7; 4]);
    tx.set(4, vec![9; 2]);
    tx.set(4096 + 12, vec![5; 4]);
    let written = tx.flush_changes(&mut disk);
    assert_eq!(written, vec![0, 4096]);
    assert_eq!(&disk[4..6], &[9, 9]);
    assert_eq!(&disk[4096 + 10..4096 + 16], &[7, 7, 5, 5, 5, 5]);
    assert_eq!(tx.pending_count(), 0);
}

#[test]
fn log_reads_back() {
    let mut tx = TableTransaction::new();
    tx.set(40, vec![1, 2, 3]);
    tx.set(8, vec![4]);
    let wal = tx.write_to_log();
    let mut expected = vec![];
    expected.extend_from_slice(&2u64.to_le_bytes());
    expected.extend_from_slice(&8u64.to_le_bytes());
    expected.extend_from_slice(&1u64.to_le_bytes());
    expected.push(4);
    expected.extend_from_slice(&40u64.to_le_bytes());
    expected.extend_from_slice(&3u64.to_le_bytes());
    expected.extend_from_slice(&[1, 2, 3]);
    expected.extend_from_slice(&718984182412u64.to_le_bytes());
    assert_eq!(wal, expected);

    let mut replayed = TableTransaction::new();
    assert!(replayed.maybe_replay_log(&wal));
    assert_eq!(replayed.write_to_log(), wal);

    let mut torn = TableTransaction::new();
    assert!(!torn.maybe_replay_log(&wal[..wal.len() - 1].to_vec()));
}
