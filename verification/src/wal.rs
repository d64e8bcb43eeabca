use vstd::prelude::*;
use crate::codec::lemma_num_roundtrip;
use crate::codec::num_bytes;
use crate::codec::num_of;
use crate::layout::WAL_MAGIC;
use crate::transaction::Changes;

verus! {

/// Whether `keys` lists the offsets of `changes`, each once, in ascending order.
pub open spec fn lists_keys(changes: Changes, keys: Seq<u64>) -> bool {
    &&& forall|i: int, j: int| 0 <= i < j < keys.len() ==> keys[i] < keys[j]
    &&& forall|k: u64| keys.contains(k) <==> changes.contains_key(k)
}

/// The offsets of `changes` that lie below `bound`, in ascending order.
pub open spec fn keys_below(changes: Changes, bound: nat) -> Seq<u64>
    decreases bound,
{
    if bound == 0 {
        Seq::<u64>::empty()
    } else if bound - 1 <= u64::MAX && changes.contains_key((bound - 1) as u64) {
        keys_below(changes, (bound - 1) as nat).push((bound - 1) as u64)
    } else {
        keys_below(changes, (bound - 1) as nat)
    }
}

/// The offsets of `changes` in ascending order.
pub open spec fn ascending_keys(changes: Changes) -> Seq<u64> {
    keys_below(changes, 0x1_0000_0000_0000_0000)
}

/// One record of the log: offset, length, bytes.
pub open spec fn record_bytes(offset: u64, data: Seq<u8>) -> Seq<u8> {
    num_bytes(offset) + num_bytes(data.len() as u64) + data
}

/// The records of the writes at `keys`, in that order.
pub open spec fn records_bytes(changes: Changes, keys: Seq<u64>) -> Seq<u8>
    decreases keys.len(),
{
    if keys.len() == 0 {
        Seq::<u8>::empty()
    } else {
        records_bytes(changes, keys.drop_last()) + record_bytes(keys.last(), changes[keys.last()])
    }
}

/// The write-ahead log of a transaction: the number of writes, one record for each
/// write in ascending order of offset, and the closing mark.
pub open spec fn wal_image(changes: Changes) -> Seq<u8> {
    num_bytes(changes.dom().len() as u64) + records_bytes(changes, ascending_keys(changes))
        + num_bytes(WAL_MAGIC)
}

/// Reads `count` records from position `pos` of `wal` on top of `acc`. Returns the
/// writes gathered, the position reached, and whether all records were there. Reading
/// stops early where the log ends within a record, or where a record has another
/// length than an earlier write at the same offset.
pub open spec fn read_records(wal: Seq<u8>, pos: int, count: nat, acc: Changes) -> (
    Changes,
    int,
    bool,
)
    decreases count,
{
    if count == 0 {
        (acc, pos, true)
    } else if pos + 16 > wal.len() {
        (acc, pos, false)
    } else {
        let offset = num_of(wal.subrange(pos, pos + 8));
        let len = num_of(wal.subrange(pos + 8, pos + 16));
        if pos + 16 + len > wal.len() {
            (acc, pos, false)
        } else if acc.contains_key(offset) && acc[offset].len() != len {
            (acc, pos, false)
        } else {
            read_records(
                wal,
                pos + 16 + len,
                (count - 1) as nat,
                acc.insert(offset, wal.subrange(pos + 16, pos + 16 + len)),
            )
        }
    }
}

/// What replaying `wal` on top of `acc` leaves, and whether the log was complete: it
/// starts with the number of records, holds that many, and ends with the closing mark.
pub open spec fn replay(wal: Seq<u8>, acc: Changes) -> (Changes, bool) {
    if wal.len() < 8 {
        (acc, false)
    } else {
        let (changes, pos, complete) = read_records(
            wal,
            8,
            num_of(wal.subrange(0, 8)) as nat,
            acc,
        );
        (
            changes,
            complete && pos + 8 <= wal.len() && num_of(wal.subrange(pos, pos + 8)) == WAL_MAGIC,
        )
    }
}

/// Two ascending lists of the same offsets are the same list.
pub proof fn lemma_lists_keys_unique(changes: Changes, a: Seq<u64>, b: Seq<u64>)
    requires
        lists_keys(changes, a),
        lists_keys(changes, b),
    ensures
        a == b,
    decreases a.len(),
{
    if a.len() == 0 {
        if b.len() > 0 {
            assert(b.contains(b[0]));
            assert(a.contains(b[0]));
        }
        assert(a =~= b);
    } else {
        let top = a.last();
        assert(a.contains(top));
        assert(b.contains(top));
        assert(b.contains(b.last()));
        assert(a.contains(b.last()));
        let ia = choose|i: int| 0 <= i < a.len() && a[i] == b.last();
        let ib = choose|i: int| 0 <= i < b.len() && b[i] == top;
        assert(b.last() == top);
        let rest = changes.remove(top);
        assert forall|k: u64| a.drop_last().contains(k) <==> rest.contains_key(k) by {
            if a.drop_last().contains(k) {
                let i = choose|i: int| 0 <= i < a.drop_last().len() && a.drop_last()[i] == k;
                assert(a[i] == k);
                assert(a.contains(k));
            }
            if rest.contains_key(k) {
                assert(a.contains(k));
                let i = choose|i: int| 0 <= i < a.len() && a[i] == k;
                assert(a.drop_last()[i] == k);
            }
        }
        assert forall|k: u64| b.drop_last().contains(k) <==> rest.contains_key(k) by {
            if b.drop_last().contains(k) {
                let i = choose|i: int| 0 <= i < b.drop_last().len() && b.drop_last()[i] == k;
                assert(b[i] == k);
                assert(b.contains(k));
            }
            if rest.contains_key(k) {
                assert(b.contains(k));
                let i = choose|i: int| 0 <= i < b.len() && b[i] == k;
                assert(b.drop_last()[i] == k);
            }
        }
        lemma_lists_keys_unique(rest, a.drop_last(), b.drop_last());
        assert(a =~= a.drop_last().push(top));
        assert(b =~= b.drop_last().push(top));
    }
}

/// `keys_below` lists, in ascending order, exactly the offsets below the bound.
pub proof fn lemma_keys_below(changes: Changes, bound: nat)
    ensures
        forall|i: int, j: int|
            0 <= i < j < keys_below(changes, bound).len() ==> keys_below(changes, bound)[i]
                < keys_below(changes, bound)[j],
        forall|i: int|
            0 <= i < keys_below(changes, bound).len() ==> keys_below(changes, bound)[i] < bound
                && changes.contains_key(#[trigger] keys_below(changes, bound)[i]),
        forall|k: u64|
            changes.contains_key(k) && k < bound ==> keys_below(changes, bound).contains(k),
    decreases bound,
{
    if bound > 0 {
        let lower = keys_below(changes, (bound - 1) as nat);
        let all = keys_below(changes, bound);
        lemma_keys_below(changes, (bound - 1) as nat);
        assert forall|k: u64| changes.contains_key(k) && k < bound implies all.contains(k) by {
            if k < bound - 1 {
                assert(lower.contains(k));
                let i = choose|i: int| 0 <= i < lower.len() && lower[i] == k;
                assert(all[i] == k);
            } else {
                assert(all[all.len() - 1] == k);
            }
        }
    }
}

/// `ascending_keys` lists the offsets of the pending writes.
pub proof fn lemma_ascending_keys(changes: Changes)
    ensures
        lists_keys(changes, ascending_keys(changes)),
{
    lemma_keys_below(changes, 0x1_0000_0000_0000_0000);
    let keys = ascending_keys(changes);
    assert forall|k: u64| keys.contains(k) <==> changes.contains_key(k) by {
        if keys.contains(k) {
            let i = choose|i: int| 0 <= i < keys.len() && keys[i] == k;
            assert(changes.contains_key(keys[i]));
        }
    }
}

/// The records of the first keys come first among the records of all keys.
pub proof fn lemma_records_prefix(changes: Changes, keys: Seq<u64>, n: int)
    requires
        0 <= n <= keys.len(),
    ensures
        records_bytes(changes, keys.subrange(0, n)).len() <= records_bytes(changes, keys).len(),
        records_bytes(changes, keys.subrange(0, n)) == records_bytes(changes, keys).subrange(
            0,
            records_bytes(changes, keys.subrange(0, n)).len() as int,
        ),
    decreases keys.len(),
{
    if n == keys.len() {
        assert(keys.subrange(0, n) =~= keys);
        assert(records_bytes(changes, keys) =~= records_bytes(changes, keys).subrange(
            0,
            records_bytes(changes, keys).len() as int,
        ));
    } else {
        let shorter = keys.drop_last();
        lemma_records_prefix(changes, shorter, n);
        assert(shorter.subrange(0, n) =~= keys.subrange(0, n));
        let part = records_bytes(changes, keys.subrange(0, n));
        assert(part =~= records_bytes(changes, keys).subrange(0, part.len() as int));
    }
}

/// Reading the records of a log image from the `i`-th on yields the remaining writes.
proof fn lemma_read_back(changes: Changes, keys: Seq<u64>, head: Seq<u8>, tail: Seq<u8>, i: int)
    requires
        lists_keys(changes, keys),
        head.len() == 8,
        0 <= i <= keys.len(),
        forall|k: u64| changes.contains_key(k) ==> changes[k].len() <= u64::MAX,
    ensures
        read_records(
            head + records_bytes(changes, keys) + tail,
            8 + records_bytes(changes, keys.subrange(0, i)).len() as int,
            (keys.len() - i) as nat,
            changes.restrict(keys.subrange(0, i).to_set()),
        ) == (changes, 8 + records_bytes(changes, keys).len() as int, true),
    decreases keys.len() - i,
{
    let wal = head + records_bytes(changes, keys) + tail;
    let done = keys.subrange(0, i);
    let acc = changes.restrict(done.to_set());
    let pos: int = 8 + records_bytes(changes, done).len() as int;
    if i == keys.len() {
        assert(done =~= keys);
        assert(acc =~= changes) by {
            assert forall|k: u64| changes.contains_key(k) implies done.to_set().contains(k) by {
                assert(keys.contains(k));
            }
        }
    } else {
        let key = keys[i];
        let data = changes[key];
        let next = keys.subrange(0, i + 1);
        assert(keys.contains(key));
        assert(next.drop_last() =~= done);
        assert(next.last() == key);
        let record = record_bytes(key, data);
        assert(records_bytes(changes, next) == records_bytes(changes, done) + record);
        lemma_records_prefix(changes, keys, i + 1);
        lemma_num_roundtrip(key);
        lemma_num_roundtrip(data.len() as u64);
        let body = records_bytes(changes, keys);
        assert(pos + record.len() <= 8 + body.len());
        assert forall|j: int| 0 <= j < record.len() implies wal[pos + j] == record[j] by {
            assert(wal[pos + j] == body[pos - 8 + j]);
            assert(body.subrange(0, records_bytes(changes, next).len() as int)[pos - 8 + j]
                == body[pos - 8 + j]);
        }
        let first = wal.subrange(pos, pos + 8);
        let second = wal.subrange(pos + 8, pos + 16);
        let third = wal.subrange(pos + 16, pos + 16 + data.len());
        assert forall|j: int| 0 <= j < 8 implies #[trigger] first[j] == num_bytes(key)[j] by {
            assert(wal[pos + j] == record[j]);
        }
        assert forall|j: int| 0 <= j < 8 implies #[trigger] second[j] == num_bytes(
            data.len() as u64,
        )[j] by {
            assert(wal[pos + (8 + j)] == record[8 + j]);
        }
        assert forall|j: int| 0 <= j < data.len() implies #[trigger] third[j] == data[j] by {
            assert(wal[pos + (16 + j)] == record[16 + j]);
        }
        assert(first =~= num_bytes(key));
        assert(second =~= num_bytes(data.len() as u64));
        assert(third =~= data);
        assert(!acc.contains_key(key)) by {
            if done.to_set().contains(key) {
                let j = choose|j: int| 0 <= j < done.len() && done[j] == key;
                assert(keys[j] < keys[i]);
            }
        }
        assert(acc.insert(key, data) =~= changes.restrict(next.to_set())) by {
            assert forall|k: u64| next.to_set().contains(k) <==> (done.to_set().contains(k) || k
                == key) by {
                if next.contains(k) {
                    let j = choose|j: int| 0 <= j < next.len() && next[j] == k;
                    if j < i {
                        assert(done[j] == k);
                    }
                }
                if done.contains(k) {
                    let j = choose|j: int| 0 <= j < done.len() && done[j] == k;
                    assert(next[j] == k);
                }
                if k == key {
                    assert(next[i] == k);
                }
            }
        }
        lemma_read_back(changes, keys, head, tail, i + 1);
    }
}

/// A log written from a transaction reads back as that transaction: replaying the
/// image of a set of writes on an empty transaction gives those writes and finds the
/// log complete.
pub proof fn lemma_wal_roundtrip(changes: Changes)
    requires
        changes.dom().finite(),
        changes.dom().len() <= u64::MAX,
        forall|k: u64| changes.contains_key(k) ==> changes[k].len() <= u64::MAX,
    ensures
        replay(wal_image(changes), Map::<u64, Seq<u8>>::empty()) == (changes, true),
{
    let keys = ascending_keys(changes);
    lemma_ascending_keys(changes);
    let count = changes.dom().len() as u64;
    let head = num_bytes(count);
    let tail = num_bytes(WAL_MAGIC);
    let body = records_bytes(changes, keys);
    let wal = wal_image(changes);
    lemma_num_roundtrip(count);
    lemma_num_roundtrip(WAL_MAGIC);
    assert(keys.len() == changes.dom().len()) by {
        assert(keys.no_duplicates());
        keys.unique_seq_to_set();
        assert(keys.to_set() =~= changes.dom());
    }
    assert(wal.subrange(0, 8) =~= head);
    let end: int = 8 + body.len() as int;
    assert(wal.subrange(end, end + 8) =~= tail);
    assert(keys.subrange(0, 0) =~= Seq::<u64>::empty());
    assert(changes.restrict(keys.subrange(0, 0).to_set()) =~= Map::<u64, Seq<u8>>::empty());
    lemma_read_back(changes, keys, head, tail, 0);
}

} // verus!
