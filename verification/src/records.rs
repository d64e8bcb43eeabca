use vstd::prelude::*;
use crate::codec::lemma_num_roundtrip;
use crate::codec::num_bytes;
use crate::image::Image;
use crate::layout::HASH_LEN;
use crate::layout::NO_VALUE;
use crate::layout::VALUE_SIZE;
use crate::logframe::lemma_slot_between;
use crate::logframe::slots_kept;
use crate::record::framed;
use crate::record::length_in;
use crate::record::RECORD_HEADER;
use crate::record::record_len;
use crate::record::slots_for;

verus! {

/// Slots that were kept make up the same run.
pub proof fn lemma_run_kept(
    before: Image,
    before_values: Map<u64, u64>,
    after: Image,
    after_values: Map<u64, u64>,
    first: u64,
    end: u64,
    offset: u64,
    n: nat,
)
    requires
        slots_kept(before, before_values, after, after_values, first, end),
        offset % VALUE_SIZE == 0,
        first <= offset,
        offset + 128 * n <= end,
    ensures
        after.slots_from(after_values, offset, n) == before.slots_from(before_values, offset, n),
    decreases n,
{
    if n > 0 {
        lemma_run_kept(
            before,
            before_values,
            after,
            after_values,
            first,
            end,
            offset,
            (n - 1) as nat,
        );
        let last = (offset + 128 * (n - 1)) as u64;
        lemma_slot_between(last, first, end);
        assert(after.value_at(after_values, last) == before.value_at(before_values, last));
    }
}

/// The parts of a framed record: it fills its slots, its first slot gives its length
/// and starts with the hash, and the value follows the header.
pub proof fn lemma_framed_parts(hash: Seq<u8>, value: Seq<u8>)
    requires
        hash.len() == HASH_LEN,
        value.len() + 162 <= u64::MAX,
    ensures
        framed(hash, value).len() == slots_for(record_len(value.len())) * 128,
        framed(hash, value).len() >= 128,
        length_in(framed(hash, value).subrange(0, 128)) == record_len(value.len()),
        framed(hash, value).subrange(0, HASH_LEN as int) == hash,
        framed(hash, value).subrange(RECORD_HEADER as int, record_len(value.len()) as int)
            == value,
{
    let len = record_len(value.len());
    let record = framed(hash, value);
    lemma_num_roundtrip(len as u64);
    assert(record.subrange(0, 128).subrange(HASH_LEN as int, RECORD_HEADER as int) =~= num_bytes(
        len as u64,
    ));
    assert(record.subrange(0, HASH_LEN as int) =~= hash);
    assert(record.subrange(RECORD_HEADER as int, len as int) =~= value);
}

/// Where the index points for a hash to a framed record of the log, the engine holds
/// the value of that record for the hash.
pub proof fn lemma_fetch_framed(
    image: Image,
    ht: Seq<([u8; 26], u64)>,
    values: Map<u64, u64>,
    hash: Seq<u8>,
    value: Seq<u8>,
    offset: u64,
)
    requires
        hash.len() == HASH_LEN,
        value.len() + 162 <= u64::MAX,
        image.lookup(ht, hash) == offset + 1,
        offset % VALUE_SIZE == 0,
        image.first_logical() <= offset,
        offset + framed(hash, value).len() <= image.next_logical(),
        image.value_at(values, offset) == framed(hash, value).subrange(0, 128),
        image.slots_from(values, offset, slots_for(record_len(value.len()))) == framed(
            hash,
            value,
        ),
    ensures
        image.fetch(ht, values, hash) == Some(value),
{
    lemma_framed_parts(hash, value);
}

/// A record of the log that can be read ends within the log, slot by slot.
pub proof fn lemma_record_fits(image: Image, values: Map<u64, u64>, offset: u64)
    requires
        image.record_ok(values, offset),
        image.next_logical() % VALUE_SIZE == 0,
    ensures
        offset + 128 * slots_for(image.record_length_at(values, offset) as nat)
            <= image.next_logical(),
        slots_for(image.record_length_at(values, offset) as nat) >= 1,
{
}

/// Where the index answers for a hash as before and the slots of the log read as
/// before, the engine holds for the hash what it held before, if it held something.
pub proof fn lemma_fetch_kept(
    before: Image,
    before_ht: Seq<([u8; 26], u64)>,
    before_values: Map<u64, u64>,
    after: Image,
    after_ht: Seq<([u8; 26], u64)>,
    after_values: Map<u64, u64>,
    hash: Seq<u8>,
)
    requires
        after.lookup(after_ht, hash) == before.lookup(before_ht, hash),
        before.next_logical() % VALUE_SIZE == 0,
        before.first_logical() <= after.first_logical(),
        before.next_logical() <= after.next_logical(),
        before.fetch(before_ht, before_values, hash) is Some,
        after.first_logical() <= before.lookup(before_ht, hash) - 1,
        slots_kept(
            before,
            before_values,
            after,
            after_values,
            before.first_logical(),
            before.next_logical(),
        ),
    ensures
        after.fetch(after_ht, after_values, hash) == before.fetch(before_ht, before_values, hash),
{
    let offset = (before.lookup(before_ht, hash) - 1) as u64;
    let first = before.first_logical();
    let end = before.next_logical();
    lemma_record_fits(before, before_values, offset);
    lemma_slot_between(offset, first, end);
    assert(after.value_at(after_values, offset) == before.value_at(before_values, offset));
    lemma_run_kept(
        before,
        before_values,
        after,
        after_values,
        first,
        end,
        offset,
        slots_for(before.record_length_at(before_values, offset) as nat),
    );
}

/// Where the ends of the log, its slots and the answer of the index for a hash are
/// kept, the engine holds for the hash what it held.
pub proof fn lemma_fetch_same(
    before: Image,
    before_ht: Seq<([u8; 26], u64)>,
    before_values: Map<u64, u64>,
    after: Image,
    after_ht: Seq<([u8; 26], u64)>,
    after_values: Map<u64, u64>,
    hash: Seq<u8>,
)
    requires
        after.lookup(after_ht, hash) == before.lookup(before_ht, hash),
        before.next_logical() % VALUE_SIZE == 0,
        after.first_logical() == before.first_logical(),
        after.next_logical() == before.next_logical(),
        slots_kept(
            before,
            before_values,
            after,
            after_values,
            before.first_logical(),
            before.next_logical(),
        ),
    ensures
        after.fetch(after_ht, after_values, hash) == before.fetch(before_ht, before_values, hash),
{
    let held = before.lookup(before_ht, hash);
    if held != NO_VALUE {
        let offset = (held - 1) as u64;
        if before.first_logical() <= offset < before.next_logical() && offset % 128 == 0 {
            lemma_slot_between(offset, before.first_logical(), before.next_logical());
            assert(after.value_at(after_values, offset) == before.value_at(before_values, offset));
            if before.record_ok(before_values, offset) {
                lemma_fetch_kept(
                    before,
                    before_ht,
                    before_values,
                    after,
                    after_ht,
                    after_values,
                    hash,
                );
            }
        }
    }
}

} // verus!
