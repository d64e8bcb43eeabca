use vstd::prelude::*;
use crate::codec::encode_num;
use crate::codec::num_bytes;
use crate::codec::num_of;
use crate::codec::zero_bytes;
use crate::codec::zeros;
use crate::layout::HASH_LEN;
use crate::layout::VALUE_SIZE;

verus! {

/// Bytes that a record spends on the hash and on its own length.
pub const RECORD_HEADER: u64 = 34;

/// Length of the record for a value of `value_len` bytes: hash, length, value.
pub open spec fn record_len(value_len: nat) -> nat {
    RECORD_HEADER as nat + value_len
}

/// Number of value slots that a record of `len` bytes takes.
pub open spec fn slots_for(len: nat) -> nat {
    (len + 127) / 128
}

/// The record for `value` under `hash` as it stands in the value log: the hash, the
/// length of the record, the value, and zeros up to the end of the last slot.
pub open spec fn framed(hash: Seq<u8>, value: Seq<u8>) -> Seq<u8> {
    hash + num_bytes(record_len(value.len()) as u64) + value + zeros(
        (slots_for(record_len(value.len())) * 128 - record_len(value.len())) as nat,
    )
}

/// The length that the first slot of a record gives for the record.
pub open spec fn length_in(slot: Seq<u8>) -> u64
    recommends
        slot.len() == VALUE_SIZE,
{
    num_of(slot.subrange(HASH_LEN as int, RECORD_HEADER as int))
}

/// Frames `value` as a record under `hash`.
pub fn frame_record(hash: &[u8; 26], value: &Vec<u8>) -> (record: Vec<u8>)
    requires
        value@.len() + 162 <= u64::MAX,
    ensures
        record@ == framed(hash@, value@),
        record@.len() == slots_for(record_len(value@.len())) * 128,
        record@.len() >= 128,
{
    let value_len = value.len();
    assert(value_len as u64 == value@.len());
    let full_value_len = (value_len as u64) + RECORD_HEADER;
    assert(full_value_len + 128 <= u64::MAX);
    let full_value_len_rounded_up = (full_value_len + VALUE_SIZE - 1) / VALUE_SIZE * VALUE_SIZE;
    let mut record: Vec<u8> = Vec::new();
    record.extend_from_slice(hash.as_slice());
    let length = encode_num(full_value_len);
    record.extend_from_slice(length.as_slice());
    record.extend_from_slice(value.as_slice());
    let padding = zero_bytes((full_value_len_rounded_up - full_value_len) as usize);
    record.extend_from_slice(padding.as_slice());
    assert(record@ =~= framed(hash@, value@));
    record
}

/// Reads the length of a record from its first slot.
pub fn record_length(slot: &[u8; 128]) -> (len: u64)
    ensures
        len == length_in(slot@),
{
    vstd::bytes::u64_from_le_bytes(vstd::slice::slice_subrange(slot.as_slice(), 26, 34))
}

/// Reads the hash of a record from its first slot.
pub fn record_hash(slot: &[u8; 128]) -> (hash: [u8; 26])
    ensures
        hash@ == slot@.subrange(0, HASH_LEN as int),
{
    let mut hash = [0u8; 26];
    let mut i: usize = 0;
    while i < 26
        invariant
            0 <= i <= 26,
            forall|j: int| 0 <= j < i ==> hash@[j] == slot@[j],
        decreases 26 - i,
    {
        hash[i] = slot[i];
        i += 1;
    }
    assert(hash@ =~= slot@.subrange(0, HASH_LEN as int));
    hash
}

} // verus!
