use vstd::bytes::lemma_auto_spec_u64_to_from_le_bytes;
use vstd::bytes::spec_u64_from_le_bytes;
use vstd::bytes::spec_u64_to_le_bytes;
use vstd::bytes::spec_u64_to_le_bytes_open;
use vstd::bytes::spec_u64_to_le_bytes_to_open;
use vstd::bytes::u64_from_le_bytes;
use vstd::bytes::u64_to_le_bytes;
use vstd::prelude::*;
use vstd::slice::slice_subrange;
use vstd::slice::slice_to_vec;
use crate::layout::HASH_LEN;
use crate::layout::SLOT_SIZE;
use crate::layout::SLOTS_IN_SECTOR;
use crate::layout::VALUE_LIMIT;

verus! {

/// The eight bytes that encode `x`, least significant first.
pub open spec fn num_bytes(x: u64) -> Seq<u8> {
    spec_u64_to_le_bytes(x)
}

/// The number that eight bytes encode, least significant first.
pub open spec fn num_of(bytes: Seq<u8>) -> u64
    recommends
        bytes.len() == 8,
{
    spec_u64_from_le_bytes(bytes)
}

/// A sequence of `n` zero bytes.
pub open spec fn zeros(n: nat) -> Seq<u8> {
    Seq::new(n, |i: int| 0u8)
}

/// Encoding and decoding a number are inverse to each other.
pub proof fn lemma_num_roundtrip(x: u64)
    ensures
        num_bytes(x).len() == 8,
        num_of(num_bytes(x)) == x,
{
    lemma_auto_spec_u64_to_from_le_bytes();
}

/// Decoding and encoding eight bytes are inverse to each other.
pub proof fn lemma_bytes_roundtrip(bytes: Seq<u8>)
    requires
        bytes.len() == 8,
    ensures
        num_bytes(num_of(bytes)) == bytes,
{
    lemma_auto_spec_u64_to_from_le_bytes();
}

/// Eight zero bytes encode the number zero.
pub proof fn lemma_num_zero()
    ensures
        num_bytes(0) == zeros(8),
        num_of(zeros(8)) == 0,
{
    spec_u64_to_le_bytes_to_open(0);
    assert(spec_u64_to_le_bytes_open(0) =~= zeros(8)) by {
        assert(0u64 & 0xff == 0 && (0u64 >> 8) & 0xff == 0 && (0u64 >> 16) & 0xff == 0 && (0u64
            >> 24) & 0xff == 0 && (0u64 >> 32) & 0xff == 0 && (0u64 >> 40) & 0xff == 0 && (0u64
            >> 48) & 0xff == 0 && (0u64 >> 56) & 0xff == 0) by (bit_vector);
    }
    lemma_auto_spec_u64_to_from_le_bytes();
}

/// Encodes a number as eight bytes, least significant first.
pub fn encode_num(x: u64) -> (bytes: Vec<u8>)
    ensures
        bytes@ == num_bytes(x),
        bytes@.len() == 8,
{
    u64_to_le_bytes(x)
}

/// Decodes the number held in the eight bytes of `data` that start at `at`.
pub fn decode_num(data: &Vec<u8>, at: usize) -> (x: u64)
    requires
        at + 8 <= data@.len(),
    ensures
        x == num_of(data@.subrange(at as int, at + 8)),
{
    let len = data.len();
    u64_from_le_bytes(slice_subrange(data.as_slice(), at, at + 8))
}

/// A vector of `n` zero bytes.
pub fn zero_bytes(n: usize) -> (bytes: Vec<u8>)
    ensures
        bytes@ == zeros(n as nat),
{
    let bytes = vec![0u8; n];
    assert(bytes@ =~= zeros(n as nat));
    bytes
}

/// The value that an index entry holds: the number in its last six bytes.
pub open spec fn entry_value_of(entry: Seq<u8>) -> u64
    recommends
        entry.len() == SLOT_SIZE,
{
    num_of(entry.subrange(HASH_LEN as int, SLOT_SIZE as int) + zeros(2))
}

/// The hash that an index entry holds: its first 26 bytes.
pub open spec fn entry_hash_of(entry: Seq<u8>) -> Seq<u8>
    recommends
        entry.len() == SLOT_SIZE,
{
    entry.subrange(0, HASH_LEN as int)
}

/// The index entry for `hash` and `value`: the hash, then the six low bytes of the
/// value.
pub open spec fn entry_bytes(hash: Seq<u8>, value: u64) -> Seq<u8> {
    hash + num_bytes(value).subrange(0, 6)
}

/// The slot at which the search for `hash` starts in its sector.
pub open spec fn home_slot(hash: Seq<u8>) -> u64
    recommends
        hash.len() == HASH_LEN,
{
    (num_of(hash.subrange(18, 26)) % SLOTS_IN_SECTOR) as u64
}

/// The two high bytes of the encoding of a value below the limit are zero.
pub proof fn lemma_small_value_bytes(value: u64)
    requires
        value < VALUE_LIMIT,
    ensures
        num_bytes(value).len() == 8,
        num_bytes(value)[6] == 0,
        num_bytes(value)[7] == 0,
        num_bytes(value).subrange(0, 6) + zeros(2) == num_bytes(value),
{
    spec_u64_to_le_bytes_to_open(value);
    assert(((value >> 48) & 0xff) == 0 && ((value >> 56) & 0xff) == 0) by (bit_vector)
        requires
            value < 0x1_0000_0000_0000u64,
    ;
    assert(num_bytes(value).subrange(0, 6) + zeros(2) =~= num_bytes(value));
}

/// An index entry gives back the hash and the value it was made of.
pub proof fn lemma_entry_roundtrip(hash: Seq<u8>, value: u64)
    requires
        hash.len() == HASH_LEN,
        value < VALUE_LIMIT,
    ensures
        entry_bytes(hash, value).len() == SLOT_SIZE,
        entry_hash_of(entry_bytes(hash, value)) == hash,
        entry_value_of(entry_bytes(hash, value)) == value,
{
    lemma_small_value_bytes(value);
    lemma_num_roundtrip(value);
    let entry = entry_bytes(hash, value);
    assert(entry.subrange(0, HASH_LEN as int) =~= hash);
    assert(entry.subrange(HASH_LEN as int, SLOT_SIZE as int) =~= num_bytes(value).subrange(0, 6));
}

/// An entry of zero bytes holds no value.
pub proof fn lemma_zero_entry()
    ensures
        entry_value_of(zeros(SLOT_SIZE as nat)) == 0,
{
    lemma_num_zero();
    assert(zeros(SLOT_SIZE as nat).subrange(HASH_LEN as int, SLOT_SIZE as int) + zeros(2)
        =~= zeros(8));
}

/// Reads the value that an index entry holds.
pub fn extract_value(data: &Vec<u8>) -> (value: u64)
    requires
        data@.len() == SLOT_SIZE,
    ensures
        value == entry_value_of(data@),
{
    let mut buf = copy_tail(data);
    buf.push(0);
    buf.push(0);
    assert(buf@ =~= data@.subrange(HASH_LEN as int, SLOT_SIZE as int) + zeros(2));
    assert(buf@.subrange(0, 8) =~= buf@);
    decode_num(&buf, 0)
}

/// The last six bytes of an index entry.
fn copy_tail(data: &Vec<u8>) -> (tail: Vec<u8>)
    requires
        data@.len() == SLOT_SIZE,
    ensures
        tail@ == data@.subrange(HASH_LEN as int, SLOT_SIZE as int),
{
    slice_to_vec(slice_subrange(data.as_slice(), 26, 32))
}

/// Builds the index entry for `hash` and `value`.
pub fn make_entry(hash: &[u8; 26], value: u64) -> (entry: Vec<u8>)
    ensures
        entry@ == entry_bytes(hash@, value),
        entry@.len() == SLOT_SIZE,
{
    let mut entry: Vec<u8> = Vec::new();
    entry.extend_from_slice(hash.as_slice());
    let number = encode_num(value);
    entry.extend_from_slice(slice_subrange(number.as_slice(), 0, 6));
    assert(entry@ =~= entry_bytes(hash@, value));
    entry
}

/// Computes the slot at which the search for `hash` starts in its sector.
pub fn get_slot(hash: &[u8; 26]) -> (slot: u64)
    ensures
        slot == home_slot(hash@),
        slot < SLOTS_IN_SECTOR,
{
    let tail = slice_subrange(hash.as_slice(), 18, 26);
    u64_from_le_bytes(tail) % SLOTS_IN_SECTOR
}

/// The value of an index entry fits in six bytes.
pub proof fn lemma_entry_value_bound(entry: Seq<u8>)
    requires
        entry.len() == SLOT_SIZE,
    ensures
        entry_value_of(entry) < VALUE_LIMIT,
{
    let bytes = entry.subrange(HASH_LEN as int, SLOT_SIZE as int) + zeros(2);
    assert(bytes[6] == 0 && bytes[7] == 0);
    lemma_bytes_roundtrip(bytes);
    let x = num_of(bytes);
    spec_u64_to_le_bytes_to_open(x);
    assert(num_bytes(x)[6] == ((x >> 48) & 0xff) as u8);
    assert(num_bytes(x)[7] == ((x >> 56) & 0xff) as u8);
    assert(x < 0x1_0000_0000_0000u64) by (bit_vector)
        requires
            ((x >> 48) & 0xff) as u8 == 0u8,
            ((x >> 56) & 0xff) as u8 == 0u8,
    ;
}

} // verus!
